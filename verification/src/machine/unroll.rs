use vstd::prelude::*;

use crate::machine::program::SpecInst;
use crate::machine::thompson::{
    compile_pieces, compile_spec, lemma_compile_shape, piece_ast, repetition_pieces, sz, Piece,
};
use crate::parser::ast::SpecAst;

verus! {

/// Changing a slot that is already there before compiling changes only that
/// slot of the result: compiling reads nothing of what it appends to.
proof fn lemma_compile_frame(a: SpecAst, p: Seq<SpecInst>, k: int, v: SpecInst)
    requires
        0 <= k < p.len(),
    ensures
        ({
            let (q, s, e) = compile_spec(a, p);
            compile_spec(a, p.update(k, v)) == (q.update(k, v), s, e)
        }),
    decreases sz(a), 1nat, 0nat,
{
    let pu = p.update(k, v);
    let (q, s, e) = compile_spec(a, p);
    match a {
        SpecAst::Concat(x, y) => {
            lemma_compile_shape(*x, p);
            lemma_compile_frame(*x, p, k, v);
            let (p1, s1, e1) = compile_spec(*x, p);
            lemma_compile_shape(*y, p1);
            lemma_compile_frame(*y, p1, k, v);
            let (p2, s2, e2) = compile_spec(*y, p1);
            assert(p2.update(k, v).update(e1 as int, SpecInst::Jump(s2)) =~= p2.update(
                e1 as int,
                SpecInst::Jump(s2),
            ).update(k, v));
        },
        SpecAst::Alternation(x, y) => {
            lemma_compile_shape(*x, p);
            lemma_compile_frame(*x, p, k, v);
            let (p1, s1, e1) = compile_spec(*x, p);
            lemma_compile_shape(*y, p1);
            lemma_compile_frame(*y, p1, k, v);
            let (p2, s2, e2) = compile_spec(*y, p1);
            let n = p2.len();
            let f = |r: Seq<SpecInst>|
                r.push(SpecInst::Split(s1, s2)).push(SpecInst::Hole).update(
                    e1 as int,
                    SpecInst::Jump(n + 1),
                ).update(e2 as int, SpecInst::Jump(n + 1));
            assert(f(p2.update(k, v)) =~= f(p2).update(k, v));
        },
        SpecAst::Star(x) => {
            lemma_compile_shape(*x, p);
            lemma_compile_frame(*x, p, k, v);
            let (p1, s1, e1) = compile_spec(*x, p);
            let n = p1.len();
            let f = |r: Seq<SpecInst>|
                r.update(e1 as int, SpecInst::Jump(n)).push(SpecInst::Split(s1, n + 1)).push(
                    SpecInst::Hole,
                );
            assert(f(p1.update(k, v)) =~= f(p1).update(k, v));
        },
        SpecAst::LazyStar(x) => {
            lemma_compile_shape(*x, p);
            lemma_compile_frame(*x, p, k, v);
            let (p1, s1, e1) = compile_spec(*x, p);
            let n = p1.len();
            let f = |r: Seq<SpecInst>|
                r.update(e1 as int, SpecInst::Jump(n)).push(SpecInst::Split(n + 1, s1)).push(
                    SpecInst::Hole,
                );
            assert(f(p1.update(k, v)) =~= f(p1).update(k, v));
        },
        SpecAst::Plus(x) => {
            lemma_compile_shape(*x, p);
            lemma_compile_frame(*x, p, k, v);
            let (p1, s1, e1) = compile_spec(*x, p);
            let n = p1.len();
            let f = |r: Seq<SpecInst>| r.update(e1 as int, SpecInst::Split(s1, n)).push(SpecInst::Hole);
            assert(f(p1.update(k, v)) =~= f(p1).update(k, v));
        },
        SpecAst::LazyPlus(x) => {
            lemma_compile_shape(*x, p);
            lemma_compile_frame(*x, p, k, v);
            let (p1, s1, e1) = compile_spec(*x, p);
            let n = p1.len();
            let f = |r: Seq<SpecInst>| r.update(e1 as int, SpecInst::Split(n, s1)).push(SpecInst::Hole);
            assert(f(p1.update(k, v)) =~= f(p1).update(k, v));
        },
        SpecAst::Question(x) => {
            lemma_compile_shape(*x, p);
            lemma_compile_frame(*x, p, k, v);
            let (p1, s1, e1) = compile_spec(*x, p);
            assert(p1.update(k, v).push(SpecInst::Split(s1, e1)) =~= p1.push(
                SpecInst::Split(s1, e1),
            ).update(k, v));
        },
        SpecAst::LazyQuestion(x) => {
            lemma_compile_shape(*x, p);
            lemma_compile_frame(*x, p, k, v);
            let (p1, s1, e1) = compile_spec(*x, p);
            assert(p1.update(k, v).push(SpecInst::Split(e1, s1)) =~= p1.push(
                SpecInst::Split(e1, s1),
            ).update(k, v));
        },
        SpecAst::BoundedRepetition(x, n, m, lazy) => {
            lemma_pieces_frame(*x, repetition_pieces(n, m, lazy), p, None, k, v);
        },
        _ => {
            assert(compile_spec(a, pu).0 =~= q.update(k, v));
        },
    }
}

proof fn lemma_pieces_frame(
    x: SpecAst,
    pcs: Seq<Piece>,
    p: Seq<SpecInst>,
    acc: Option<(nat, nat)>,
    k: int,
    v: SpecInst,
)
    requires
        0 <= k < p.len(),
        acc matches Some((s, e)) ==> k != e && e < p.len(),
    ensures
        ({
            let (q, s, e) = compile_pieces(x, pcs, p, acc);
            compile_pieces(x, pcs, p.update(k, v), acc) == (q.update(k, v), s, e)
        }),
    decreases sz(x) + 2, 0nat, pcs.len(),
{
    if pcs.len() == 0 {
        if acc is None {
            assert(p.update(k, v).push(SpecInst::Hole) =~= p.push(SpecInst::Hole).update(k, v));
        }
    } else {
        let px = piece_ast(x, pcs[0]);
        lemma_compile_shape(px, p);
        lemma_compile_frame(px, p, k, v);
        let (p1, s1, e1) = compile_spec(px, p);
        match acc {
            None => {
                lemma_pieces_frame(x, pcs.drop_first(), p1, Some((s1, e1)), k, v);
            },
            Some((s, e)) => {
                let p2 = p1.update(e as int, SpecInst::Jump(s1));
                assert(p1.update(k, v).update(e as int, SpecInst::Jump(s1)) =~= p2.update(k, v));
                lemma_pieces_frame(x, pcs.drop_first(), p2, Some((s, e1)), k, v);
            },
        }
    }
}

/// The concatenation of `parts`, grouped to the right; the empty pattern when
/// there are none.
pub open spec fn chain(parts: Seq<SpecAst>) -> SpecAst
    decreases parts.len(),
{
    if parts.len() == 0 {
        SpecAst::Empty
    } else if parts.len() == 1 {
        parts[0]
    } else {
        SpecAst::Concat(Box::new(parts[0]), Box::new(chain(parts.drop_first())))
    }
}

/// What `x{n,m}` is written out as: `n` copies of `x`, then `m - n` optional
/// copies (`x?`, or `x??` when lazy); with no upper bound, `n` copies of `x`
/// and then `x*` (or `x*?`).
pub open spec fn unrolled(x: SpecAst, n: u16, m: Option<u16>, lazy: bool) -> Seq<SpecAst> {
    Seq::new(n as nat, |i: int| x) + match m {
        Some(m) => Seq::new(
            if m > n {
                (m - n) as nat
            } else {
                0
            },
            |i: int|
                if lazy {
                    SpecAst::LazyQuestion(Box::new(x))
                } else {
                    SpecAst::Question(Box::new(x))
                },
        ),
        None => seq![
            if lazy {
                SpecAst::LazyStar(Box::new(x))
            } else {
                SpecAst::Star(Box::new(x))
            },
        ],
    }
}

spec fn parts_of(x: SpecAst, pcs: Seq<Piece>) -> Seq<SpecAst> {
    pcs.map_values(|pc: Piece| piece_ast(x, pc))
}

proof fn lemma_pieces_chain_acc(x: SpecAst, pcs: Seq<Piece>, q: Seq<SpecInst>, s: nat, e: nat)
    requires
        pcs.len() > 0,
        e < q.len(),
    ensures
        ({
            let (r, s2, e2) = compile_spec(chain(parts_of(x, pcs)), q);
            compile_pieces(x, pcs, q, Some((s, e))) == (r.update(e as int, SpecInst::Jump(s2)), s, e2)
        }),
    decreases pcs.len(),
{
    let y = piece_ast(x, pcs[0]);
    let rest = pcs.drop_first();
    assert(parts_of(x, pcs)[0] == y);
    assert(parts_of(x, pcs).drop_first() =~= parts_of(x, rest));
    lemma_compile_shape(y, q);
    let (q1, sy, ey) = compile_spec(y, q);
    let q2 = q1.update(e as int, SpecInst::Jump(sy));
    assert(compile_pieces(x, pcs, q, Some((s, e))) == compile_pieces(x, rest, q2, Some((s, ey))));
    if pcs.len() == 1 {
        assert(parts_of(x, pcs).len() == 1);
        assert(chain(parts_of(x, pcs)) == y);
        assert(rest.len() == 0);
        assert(compile_pieces(x, rest, q2, Some((s, ey))) == (q2, s, ey));
    } else {
        lemma_pieces_chain_acc(x, rest, q2, s, ey);
        let c = chain(parts_of(x, rest));
        assert(chain(parts_of(x, pcs)) == SpecAst::Concat(Box::new(y), Box::new(c)));
        lemma_compile_frame(c, q1, e as int, SpecInst::Jump(sy));
        lemma_compile_shape(c, q1);
        let (r, s3, e3) = compile_spec(c, q1);
        assert(compile_spec(SpecAst::Concat(Box::new(y), Box::new(c)), q) == (r.update(
            ey as int,
            SpecInst::Jump(s3),
        ), sy, e3));
        assert(r.update(e as int, SpecInst::Jump(sy)).update(ey as int, SpecInst::Jump(s3)) =~= r.update(
            ey as int,
            SpecInst::Jump(s3),
        ).update(e as int, SpecInst::Jump(sy)));
    }
}

proof fn lemma_pieces_chain(x: SpecAst, pcs: Seq<Piece>, p: Seq<SpecInst>)
    ensures
        compile_pieces(x, pcs, p, None) == compile_spec(chain(parts_of(x, pcs)), p),
{
    if pcs.len() > 0 {
        let y = piece_ast(x, pcs[0]);
        let rest = pcs.drop_first();
        assert(parts_of(x, pcs)[0] == y);
        assert(parts_of(x, pcs).drop_first() =~= parts_of(x, rest));
        lemma_compile_shape(y, p);
        let (p1, sy, ey) = compile_spec(y, p);
        assert(compile_pieces(x, pcs, p, None) == compile_pieces(x, rest, p1, Some((sy, ey))));
        if pcs.len() == 1 {
            assert(parts_of(x, pcs).len() == 1);
            assert(chain(parts_of(x, pcs)) == y);
            assert(compile_pieces(x, rest, p1, Some((sy, ey))) == (p1, sy, ey));
        } else {
            lemma_pieces_chain_acc(x, rest, p1, sy, ey);
            let c = chain(parts_of(x, rest));
            assert(chain(parts_of(x, pcs)) == SpecAst::Concat(Box::new(y), Box::new(c)));
        }
    } else {
        assert(parts_of(x, pcs).len() == 0);
        assert(chain(parts_of(x, pcs)) == SpecAst::Empty);
    }
}

/// A bounded repetition compiles exactly as the concatenation it is written
/// out as: `x{n,m}` as `n` copies of `x` followed by `m - n` copies of `x?`
/// (`x??` when lazy), `x{n,}` as `n` copies of `x` followed by `x*` (`x*?`).
pub proof fn lemma_bounded_unrolls(x: SpecAst, n: u16, m: Option<u16>, lazy: bool, p: Seq<SpecInst>)
    ensures
        compile_spec(SpecAst::BoundedRepetition(Box::new(x), n, m, lazy), p) == compile_spec(
            chain(unrolled(x, n, m, lazy)),
            p,
        ),
{
    let pcs = repetition_pieces(n, m, lazy);
    assert(parts_of(x, pcs) =~= unrolled(x, n, m, lazy));
    lemma_pieces_chain(x, pcs, p);
}

} // verus!
