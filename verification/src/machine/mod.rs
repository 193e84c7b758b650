pub mod class;
pub mod language;
pub mod position;
pub mod program;
pub mod thompson;
pub mod unroll;
pub mod priority;

use vstd::prelude::*;

use crate::machine::class::{Class, ClassInstruction};
use crate::machine::position::Position;
use crate::machine::program::{
    program_view, Instruction as Inst, Program, SpecInst, ValidInstruction, ValidProgram,
};
use crate::machine::thompson::{
    compile_pieces, compile_spec, lemma_compile_shape, lemma_pieces_psize_run, piece_ast,
    pieces_psize, psize, repetition_pieces, sz, targets_below, Piece,
};
use crate::parser::ast::{AnchorKind, Ast, ClassType, SpecAst};
use crate::parser::bounded_repetition::BoundedRepetition;
use crate::machine::language::lemma_single_match;

verus! {

/// An index into a program.
pub type State = usize;

pub type Instruction = ValidInstruction;

/// The program that `a` compiles to: its fragment, with the exit hole
/// replaced by `Match`.
pub open spec fn machine_program(a: SpecAst) -> Seq<SpecInst> {
    let (q, s, e) = compile_spec(a, Seq::empty());
    q.update(e as int, SpecInst::Match)
}

/// The state a compiled `a` starts at.
pub open spec fn machine_start(a: SpecAst) -> nat {
    compile_spec(a, Seq::empty()).1
}

/// A finished program: no holes, and every instruction continues inside it.
pub open spec fn program_wf(p: Seq<SpecInst>) -> bool {
    forall|k: int| 0 <= k < p.len() ==> !(#[trigger] p[k] is Hole) && targets_below(p[k], p.len())
}

/// The number of instructions that `ast` compiles to (the final `Match`
/// included), or `None` where that number does not fit in a `usize`.
pub fn program_size(ast: &Ast) -> (r: Option<usize>)
    ensures
        match r {
            Some(n) => n == psize(ast@),
            None => psize(ast@) > usize::MAX,
        },
    decreases ast,
{
    match ast {
        Ast::Empty => Some(1),
        Ast::Literal(_) | Ast::Class(_, _) | Ast::Any | Ast::Anchor(_) => Some(2),
        Ast::Concat(x, y) => {
            let a = program_size(x)?;
            let b = program_size(y)?;
            a.checked_add(b)
        },
        Ast::Alternation(x, y) => {
            let a = program_size(x)?;
            let b = program_size(y)?;
            let ab = a.checked_add(b)?;
            ab.checked_add(2)
        },
        Ast::Star(x) | Ast::LazyStar(x) => {
            let a = program_size(x)?;
            a.checked_add(2)
        },
        Ast::Plus(x) | Ast::LazyPlus(x) | Ast::Question(x) | Ast::LazyQuestion(x) => {
            let a = program_size(x)?;
            a.checked_add(1)
        },
        Ast::BoundedRepetition(b) => {
            if piece_count(b) == 0 {
                return Some(1);
            }
            match program_size(&b.ast) {
                Some(px) => bounded_size(b, px),
                None => {
                    proof {
                        lemma_bounded_at_least_child(b.ast@, b.n, b.m, b.lazy);
                    }
                    None
                },
            }
        },
    }
}

/// How many copies of the child a bounded repetition unrolls into.
fn piece_count(b: &BoundedRepetition) -> (r: usize)
    ensures
        r == repetition_pieces(b.n, b.m, b.lazy).len(),
{
    match b.m {
        Some(m) => if m > b.n {
            m as usize
        } else {
            b.n as usize
        },
        None => b.n as usize + 1,
    }
}

/// A bounded repetition that unrolls into at least one copy compiles to at
/// least as many instructions as its child.
proof fn lemma_bounded_at_least_child(x: SpecAst, n: u16, m: Option<u16>, lazy: bool)
    requires
        repetition_pieces(n, m, lazy).len() > 0,
    ensures
        psize(SpecAst::BoundedRepetition(Box::new(x), n, m, lazy)) >= psize(x),
{
    let pcs = repetition_pieces(n, m, lazy);
    assert(pieces_psize(x, pcs) == psize(piece_ast(x, pcs[0])) + pieces_psize(x, pcs.drop_first()));
}

/// `program_size` of a bounded repetition that unrolls into at least one
/// copy, given the child's size `px`: `n` copies of the child, then `m - n`
/// optional copies or one starred copy.
fn bounded_size(b: &BoundedRepetition, px: usize) -> (r: Option<usize>)
    requires
        px == psize(b.ast@),
        repetition_pieces(b.n, b.m, b.lazy).len() > 0,
    ensures
        match r {
            Some(n) => n == psize(SpecAst::BoundedRepetition(Box::new(b.ast@), b.n, b.m, b.lazy)),
            None => psize(SpecAst::BoundedRepetition(Box::new(b.ast@), b.n, b.m, b.lazy))
                > usize::MAX,
        },
{
    let ghost x = b.ast@;
    let ghost pcs = repetition_pieces(b.n, b.m, b.lazy);
    let ghost once = Seq::new(b.n as nat, |i: int| Piece::Once);
    let ghost total = psize(SpecAst::BoundedRepetition(Box::new(x), b.n, b.m, b.lazy));
    assert(total == pieces_psize(x, pcs));
    let ghost tail_size: int;
    let (k, extra): (usize, usize) = match b.m {
        Some(m) => {
            let k: usize = if m > b.n {
                (m - b.n) as usize
            } else {
                0
            };
            let p = if b.lazy {
                Piece::LazyOptional
            } else {
                Piece::Optional
            };
            let ghost opt = Seq::new(k as nat, |i: int| p);
            proof {
                assert(pcs =~= once + opt);
                lemma_pieces_psize_run(x, Piece::Once, b.n as nat, opt);
                lemma_pieces_psize_run(x, p, k as nat, Seq::empty());
                assert(opt + Seq::<Piece>::empty() =~= opt);
                assert(pieces_psize(x, Seq::<Piece>::empty()) == 0);
                assert(psize(piece_ast(x, p)) == px + 1);
                tail_size = k * (px + 1);
            }
            (k, 1)
        },
        None => {
            let p = if b.lazy {
                Piece::LazyMany
            } else {
                Piece::Many
            };
            proof {
                assert(pcs =~= once + seq![p]);
                lemma_pieces_psize_run(x, Piece::Once, b.n as nat, seq![p]);
                lemma_pieces_psize_run(x, p, 1, Seq::empty());
                assert(Seq::new(1, |i: int| p) + Seq::<Piece>::empty() =~= seq![p]);
                assert(pieces_psize(x, Seq::<Piece>::empty()) == 0);
                assert(psize(piece_ast(x, p)) == px + 2);
                tail_size = 1 * (px + 2);
            }
            (1, 2)
        },
    };
    assert(total == b.n * px + k * (px + extra));
    let fixed = match (b.n as usize).checked_mul(px) {
        Some(v) => v,
        None => return None,
    };
    if k == 0 {
        return Some(fixed);
    }
    let each = match px.checked_add(extra) {
        Some(v) => v,
        None => {
            assert(k * (px + extra) >= px + extra) by (nonlinear_arith)
                requires
                    k >= 1,
            {
            }
            return None;
        },
    };
    let tail = match k.checked_mul(each) {
        Some(v) => v,
        None => return None,
    };
    fixed.checked_add(tail)
}

/// Every tree compiles to a finished program of `psize(a)` instructions (the
/// number `program_size` reports): no hole is left, every instruction
/// continues inside the program, and the entry is one of its states.
pub proof fn lemma_machine_program(a: SpecAst)
    ensures
        machine_program(a).len() == psize(a),
        program_wf(machine_program(a)),
        machine_start(a) < machine_program(a).len(),
{
    lemma_compile_shape(a, Seq::empty());
    let (q0, s0, e0) = compile_spec(a, Seq::empty());
    let q = machine_program(a);
    assert forall|k: int| 0 <= k < q.len() implies !(#[trigger] q[k] is Hole) && targets_below(
        q[k],
        q.len(),
    ) by {
        if k != e0 {
            assert(q[k] == q0[k]);
        }
    }
}

/// `x{0,}` is `x*`, `x{0,1}` is `x?` (and likewise for their lazy forms),
/// `x{1}` is `x`, and `x{0}` is the empty pattern: each pair compiles to the
/// very same program, with the same entry.
pub proof fn lemma_bounded_shorthands(x: SpecAst, lazy: bool)
    ensures
        ({
            let star = if lazy {
                SpecAst::LazyStar(Box::new(x))
            } else {
                SpecAst::Star(Box::new(x))
            };
            let a = SpecAst::BoundedRepetition(Box::new(x), 0, None, lazy);
            machine_program(a) == machine_program(star) && machine_start(a) == machine_start(star)
        }),
        ({
            let question = if lazy {
                SpecAst::LazyQuestion(Box::new(x))
            } else {
                SpecAst::Question(Box::new(x))
            };
            let a = SpecAst::BoundedRepetition(Box::new(x), 0, Some(1), lazy);
            machine_program(a) == machine_program(question) && machine_start(a) == machine_start(
                question,
            )
        }),
        ({
            let a = SpecAst::BoundedRepetition(Box::new(x), 1, Some(1), lazy);
            machine_program(a) == machine_program(x) && machine_start(a) == machine_start(x)
        }),
        ({
            let a = SpecAst::BoundedRepetition(Box::new(x), 0, Some(0), lazy);
            machine_program(a) == machine_program(SpecAst::Empty) && machine_start(a)
                == machine_start(SpecAst::Empty)
        }),
{
    let e = Seq::<SpecInst>::empty();
    let many = if lazy {
        Piece::LazyMany
    } else {
        Piece::Many
    };
    let opt = if lazy {
        Piece::LazyOptional
    } else {
        Piece::Optional
    };
    assert(repetition_pieces(0, None, lazy) =~= seq![many]);
    assert(seq![many].drop_first() =~= Seq::<Piece>::empty());
    let c = compile_spec(piece_ast(x, many), e);
    assert(compile_pieces(x, seq![many], e, None) == compile_pieces(
        x,
        Seq::<Piece>::empty(),
        c.0,
        Some((c.1, c.2)),
    ));
    assert(repetition_pieces(0, Some(1), lazy) =~= seq![opt]);
    assert(seq![opt].drop_first() =~= Seq::<Piece>::empty());
    let d = compile_spec(piece_ast(x, opt), e);
    assert(compile_pieces(x, seq![opt], e, None) == compile_pieces(
        x,
        Seq::<Piece>::empty(),
        d.0,
        Some((d.1, d.2)),
    ));
    assert(repetition_pieces(1, Some(1), lazy) =~= seq![Piece::Once]);
    assert(seq![Piece::Once].drop_first() =~= Seq::<Piece>::empty());
    let o = compile_spec(x, e);
    assert(compile_pieces(x, seq![Piece::Once], e, None) == compile_pieces(
        x,
        Seq::<Piece>::empty(),
        o.0,
        Some((o.1, o.2)),
    ));
    assert(compile_spec(SpecAst::BoundedRepetition(Box::new(x), 1, Some(1), lazy), e) == o);
    assert(repetition_pieces(0, Some(0), lazy) =~= Seq::<Piece>::empty());
    assert(compile_pieces(x, Seq::<Piece>::empty(), e, None) == (e.push(SpecInst::Hole), 0nat, 0nat));
    assert(compile_spec(SpecAst::Empty, e) == (e.push(SpecInst::Hole), 0nat, 0nat));
    assert(compile_spec(SpecAst::BoundedRepetition(Box::new(x), 0, Some(0), lazy), e)
        == compile_spec(SpecAst::Empty, e));
}

struct Fragment {
    start: State,
    exit: State,
}

pub struct Machine {
    start: State,
    program: ValidProgram,
}

impl Machine {
    /// The program is finished and its entry lies inside it.
    #[verifier::type_invariant]
    pub open spec fn inv(self) -> bool {
        self.entry() < self.code().len() && program_wf(self.code())
    }

    /// The program, as instructions.
    pub closed spec fn code(&self) -> Seq<SpecInst> {
        self.program@
    }

    /// The state the program starts at.
    pub closed spec fn entry(&self) -> nat {
        self.start as nat
    }

    /// Compiles `ast` (Thompson's construction); the program must fit in memory
    /// addressed by a `usize`.
    pub fn new(ast: Ast) -> (m: Self)
        requires
            psize(ast@) < usize::MAX,
        ensures
            m.code() == machine_program(ast@),
            m.entry() == machine_start(ast@),
            m.code().len() == psize(ast@),
            exists|k: int|
                0 <= k < m.code().len() && (#[trigger] m.code()[k]) is Match && forall|j: int|
                    0 <= j < m.code().len() && (#[trigger] m.code()[j]) is Match ==> j == k,
    {
        proof {
            lemma_machine_program(ast@);
            lemma_single_match(ast@);
            let e = compile_spec(ast@, Seq::empty()).2 as int;
            assert(0 <= e < machine_program(ast@).len());
            assert(machine_program(ast@)[e] is Match);
        }
        let mut program: Program = Vec::new();
        proof {
            assert(program_view(program@) =~= Seq::<SpecInst>::empty());
            lemma_compile_shape(ast@, Seq::empty());
        }
        let fragment = compile_fragment(&ast, &mut program);
        set_inst(&mut program, fragment.exit, Inst::Match);
        let ghost q = program_view(program@);
        proof {
            let (q0, s0, e0) = compile_spec(ast@, Seq::empty());
            assert(q == q0.update(e0 as int, SpecInst::Match));
            assert forall|k: int| 0 <= k < program@.len() implies !(#[trigger] program@[k] is Hole) by {
                assert(q[k] == program@[k]@);
                if k != e0 {
                    assert(!(q0[k] is Hole));
                }
            }
        }
        let r = ValidProgram::new(program);
        let program = r.unwrap();
        let m = Self { start: fragment.start, program };
        m
    }

    pub fn start(&self) -> (r: State)
        ensures
            r == self.entry(),
    {
        self.start
    }

    pub fn program(&self) -> (r: &ValidProgram)
        ensures
            r@ == self.code(),
    {
        &self.program
    }
}

/// Appends one instruction.
fn push_inst(program: &mut Program, inst: Inst)
    ensures
        program_view(final(program)@) == program_view(old(program)@).push(inst@),
        final(program)@.len() == old(program)@.len() + 1,
{
    program.push(inst);
    assert(program_view(program@) =~= program_view(old(program)@).push(inst@));
}

/// Fills slot `k`.
fn set_inst(program: &mut Program, k: usize, inst: Inst)
    requires
        k < old(program)@.len(),
    ensures
        program_view(final(program)@) == program_view(old(program)@).update(k as int, inst@),
        final(program)@.len() == old(program)@.len(),
{
    program.set(k, inst);
    assert(program_view(program@) =~= program_view(old(program)@).update(k as int, inst@));
}

/// The length of a program, as seen through its view.
proof fn lemma_view_len(p: Seq<Inst>)
    ensures
        program_view(p).len() == p.len(),
{
}

fn compile_fragment(ast: &Ast, program: &mut Program) -> (f: Fragment)
    requires
        old(program)@.len() + psize(ast@) <= usize::MAX,
    ensures
        ({
            let (q, s, e) = compile_spec(ast@, program_view(old(program)@));
            program_view(final(program)@) == q && f.start == s && f.exit == e
        }),
    decreases sz(ast@), 3nat,
{
    match ast {
        Ast::Empty => compile_empty(program),
        Ast::Literal(c) => compile_literal(*c, program),
        Ast::Concat(left, right) => compile_concat(left, right, program),
        Ast::Alternation(left, right) => compile_alternation(left, right, program),
        Ast::Star(inner) => compile_star(inner, program),
        Ast::LazyStar(inner) => compile_lazy_star(inner, program),
        Ast::Plus(inner) => compile_plus(inner, program),
        Ast::LazyPlus(inner) => compile_lazy_plus(inner, program),
        Ast::Question(inner) => compile_question(inner, program),
        Ast::LazyQuestion(inner) => compile_lazy_question(inner, program),
        Ast::Class(c, negated) => compile_class(c.as_slice(), *negated, program),
        Ast::Any => compile_any(program),
        Ast::Anchor(anchor) => compile_anchor(anchor, program),
        Ast::BoundedRepetition(rep) => compile_bounded_repetition(rep, program),
    }
}

fn compile_empty(program: &mut Program) -> (f: Fragment)
    requires
        old(program)@.len() + 1 <= usize::MAX,
    ensures
        ({
            let (q, s, e) = compile_spec(SpecAst::Empty, program_view(old(program)@));
            program_view(final(program)@) == q && f.start == s && f.exit == e
        }),
{
    let exit = program.len();
    push_inst(program, Inst::Hole);
    Fragment { start: exit, exit }
}

fn compile_literal(c: char, program: &mut Program) -> (f: Fragment)
    requires
        old(program)@.len() + 2 <= usize::MAX,
    ensures
        ({
            let (q, s, e) = compile_spec(SpecAst::Literal(c), program_view(old(program)@));
            program_view(final(program)@) == q && f.start == s && f.exit == e
        }),
{
    let start = program.len();
    push_inst(program, Inst::Consume(c, start + 1));
    let exit = program.len();
    push_inst(program, Inst::Hole);
    Fragment { start, exit }
}

fn compile_class(c: &[ClassType], negated: bool, program: &mut Program) -> (f: Fragment)
    requires
        old(program)@.len() + 2 <= usize::MAX,
    ensures
        ({
            let (q, s, e) = compile_spec(SpecAst::Class(c@, negated), program_view(old(program)@));
            program_view(final(program)@) == q && f.start == s && f.exit == e
        }),
{
    let start = program.len();
    let mut instructions: Vec<ClassInstruction> = Vec::new();
    let mut k: usize = 0;
    while k < c.len()
        invariant
            k <= c@.len(),
            instructions@ == class::class_instructions(c@.subrange(0, k as int)),
        decreases c@.len() - k,
    {
        instructions.push(ClassInstruction::from(&c[k]));
        k += 1;
        assert(instructions@ =~= class::class_instructions(c@.subrange(0, k as int)));
    }
    assert(c@.subrange(0, c@.len() as int) =~= c@);
    let exit = start + 1;
    let class = Class::new(instructions, negated, exit);
    push_inst(program, Inst::ConsumeClass(class));
    push_inst(program, Inst::Hole);
    Fragment { start, exit }
}

fn compile_any(program: &mut Program) -> (f: Fragment)
    requires
        old(program)@.len() + 2 <= usize::MAX,
    ensures
        ({
            let (q, s, e) = compile_spec(SpecAst::Any, program_view(old(program)@));
            program_view(final(program)@) == q && f.start == s && f.exit == e
        }),
{
    let start = program.len();
    push_inst(program, Inst::ConsumeAny(start + 1));
    let exit = program.len();
    push_inst(program, Inst::Hole);
    Fragment { start, exit }
}

fn compile_anchor(anchor: &AnchorKind, program: &mut Program) -> (f: Fragment)
    requires
        old(program)@.len() + 2 <= usize::MAX,
    ensures
        ({
            let (q, s, e) = compile_spec(SpecAst::Anchor(*anchor), program_view(old(program)@));
            program_view(final(program)@) == q && f.start == s && f.exit == e
        }),
{
    let start = program.len();
    let position = Position::from(anchor);
    push_inst(program, Inst::ConditionalJump(position, start + 1));
    let exit = program.len();
    push_inst(program, Inst::Hole);
    Fragment { start, exit }
}

fn compile_concat(left: &Ast, right: &Ast, program: &mut Program) -> (f: Fragment)
    requires
        old(program)@.len() + psize(left@) + psize(right@) <= usize::MAX,
    ensures
        ({
            let (q, s, e) = compile_spec(
                SpecAst::Concat(Box::new(left@), Box::new(right@)),
                program_view(old(program)@),
            );
            program_view(final(program)@) == q && f.start == s && f.exit == e
        }),
    decreases sz(left@) + sz(right@) + 1, 2nat,
{
    proof {
        lemma_compile_shape(left@, program_view(program@));
    }
    let left = compile_fragment(left, program);
    proof {
        lemma_compile_shape(right@, program_view(program@));
    }
    let right = compile_fragment(right, program);
    set_inst(program, left.exit, Inst::Jump(right.start));
    Fragment { start: left.start, exit: right.exit }
}

fn compile_alternation(left: &Ast, right: &Ast, program: &mut Program) -> (f: Fragment)
    requires
        old(program)@.len() + psize(left@) + psize(right@) + 2 <= usize::MAX,
    ensures
        ({
            let (q, s, e) = compile_spec(
                SpecAst::Alternation(Box::new(left@), Box::new(right@)),
                program_view(old(program)@),
            );
            program_view(final(program)@) == q && f.start == s && f.exit == e
        }),
    decreases sz(left@) + sz(right@) + 1, 2nat,
{
    proof {
        lemma_compile_shape(left@, program_view(program@));
    }
    let left = compile_fragment(left, program);
    proof {
        lemma_compile_shape(right@, program_view(program@));
    }
    let right = compile_fragment(right, program);
    push_inst(program, Inst::Split(left.start, right.start));
    let alt_start = program.len() - 1;
    push_inst(program, Inst::Hole);
    let alt_exit = program.len() - 1;
    set_inst(program, left.exit, Inst::Jump(alt_exit));
    set_inst(program, right.exit, Inst::Jump(alt_exit));
    Fragment { start: alt_start, exit: alt_exit }
}

fn compile_star(ast: &Ast, program: &mut Program) -> (f: Fragment)
    requires
        old(program)@.len() + psize(ast@) + 2 <= usize::MAX,
    ensures
        ({
            let (q, s, e) = compile_spec(SpecAst::Star(Box::new(ast@)), program_view(old(program)@));
            program_view(final(program)@) == q && f.start == s && f.exit == e
        }),
    decreases sz(ast@) + 1, 2nat,
{
    proof {
        lemma_compile_shape(ast@, program_view(program@));
    }
    let frag = compile_fragment(ast, program);
    let start = program.len();
    let exit = start + 1;
    set_inst(program, frag.exit, Inst::Jump(start));
    push_inst(program, Inst::Split(frag.start, exit));
    push_inst(program, Inst::Hole);
    Fragment { start, exit }
}

fn compile_lazy_star(ast: &Ast, program: &mut Program) -> (f: Fragment)
    requires
        old(program)@.len() + psize(ast@) + 2 <= usize::MAX,
    ensures
        ({
            let (q, s, e) = compile_spec(
                SpecAst::LazyStar(Box::new(ast@)),
                program_view(old(program)@),
            );
            program_view(final(program)@) == q && f.start == s && f.exit == e
        }),
    decreases sz(ast@) + 1, 2nat,
{
    // Same as compile_star, but the split prefers leaving the loop.
    proof {
        lemma_compile_shape(ast@, program_view(program@));
    }
    let frag = compile_fragment(ast, program);
    let start = program.len();
    let exit = start + 1;
    set_inst(program, frag.exit, Inst::Jump(start));
    push_inst(program, Inst::Split(exit, frag.start));
    push_inst(program, Inst::Hole);
    Fragment { start, exit }
}

fn compile_plus(ast: &Ast, program: &mut Program) -> (f: Fragment)
    requires
        old(program)@.len() + psize(ast@) + 1 <= usize::MAX,
    ensures
        ({
            let (q, s, e) = compile_spec(SpecAst::Plus(Box::new(ast@)), program_view(old(program)@));
            program_view(final(program)@) == q && f.start == s && f.exit == e
        }),
    decreases sz(ast@) + 1, 2nat,
{
    proof {
        lemma_compile_shape(ast@, program_view(program@));
    }
    let frag = compile_fragment(ast, program);
    let start = frag.start;
    let exit = program.len();
    set_inst(program, frag.exit, Inst::Split(start, exit));
    push_inst(program, Inst::Hole);
    Fragment { start, exit }
}

fn compile_lazy_plus(ast: &Ast, program: &mut Program) -> (f: Fragment)
    requires
        old(program)@.len() + psize(ast@) + 1 <= usize::MAX,
    ensures
        ({
            let (q, s, e) = compile_spec(
                SpecAst::LazyPlus(Box::new(ast@)),
                program_view(old(program)@),
            );
            program_view(final(program)@) == q && f.start == s && f.exit == e
        }),
    decreases sz(ast@) + 1, 2nat,
{
    // Same as compile_plus, but the split prefers leaving the loop.
    proof {
        lemma_compile_shape(ast@, program_view(program@));
    }
    let frag = compile_fragment(ast, program);
    let start = frag.start;
    let exit = program.len();
    set_inst(program, frag.exit, Inst::Split(exit, start));
    push_inst(program, Inst::Hole);
    Fragment { start, exit }
}

fn compile_question(ast: &Ast, program: &mut Program) -> (f: Fragment)
    requires
        old(program)@.len() + psize(ast@) + 1 <= usize::MAX,
    ensures
        ({
            let (q, s, e) = compile_spec(
                SpecAst::Question(Box::new(ast@)),
                program_view(old(program)@),
            );
            program_view(final(program)@) == q && f.start == s && f.exit == e
        }),
    decreases sz(ast@) + 1, 2nat,
{
    proof {
        lemma_compile_shape(ast@, program_view(program@));
    }
    let frag = compile_fragment(ast, program);
    let start = program.len();
    let exit = frag.exit;
    push_inst(program, Inst::Split(frag.start, exit));
    Fragment { start, exit }
}

fn compile_lazy_question(ast: &Ast, program: &mut Program) -> (f: Fragment)
    requires
        old(program)@.len() + psize(ast@) + 1 <= usize::MAX,
    ensures
        ({
            let (q, s, e) = compile_spec(
                SpecAst::LazyQuestion(Box::new(ast@)),
                program_view(old(program)@),
            );
            program_view(final(program)@) == q && f.start == s && f.exit == e
        }),
    decreases sz(ast@) + 1, 2nat,
{
    // Same as compile_question, but the split prefers skipping.
    proof {
        lemma_compile_shape(ast@, program_view(program@));
    }
    let frag = compile_fragment(ast, program);
    let start = program.len();
    let exit = frag.exit;
    push_inst(program, Inst::Split(exit, frag.start));
    Fragment { start, exit }
}

/// Joins `piece` after the fragment built so far.
fn join(frag: Option<Fragment>, piece: Fragment, program: &mut Program) -> (r: Fragment)
    requires
        frag matches Some(f) ==> f.exit < old(program)@.len(),
    ensures
        frag is None ==> program_view(final(program)@) == program_view(old(program)@) && r.start
            == piece.start && r.exit == piece.exit,
        frag matches Some(f) ==> program_view(final(program)@) == program_view(
            old(program)@,
        ).update(f.exit as int, SpecInst::Jump(piece.start as nat)) && r.start == f.start
            && r.exit == piece.exit,
{
    match frag {
        None => piece,
        Some(f) => {
            set_inst(program, f.exit, Inst::Jump(piece.start));
            Fragment { start: f.start, exit: piece.exit }
        },
    }
}

/// The fragment built so far, as the spec of the unrolling sees it.
spec fn acc_of(frag: Option<Fragment>) -> Option<(nat, nat)> {
    match frag {
        None => None,
        Some(f) => Some((f.start as nat, f.exit as nat)),
    }
}

/// One step of the unrolling: what is left of the pieces after compiling the
/// first of them.
proof fn lemma_pieces_step(
    x: SpecAst,
    pcs: Seq<Piece>,
    d: int,
    p: Seq<SpecInst>,
    acc: Option<(nat, nat)>,
)
    requires
        0 <= d < pcs.len(),
    ensures
        pcs.skip(d).len() > 0,
        pcs.skip(d)[0] == pcs[d],
        pcs.skip(d).drop_first() == pcs.skip(d + 1),
        pieces_psize(x, pcs.skip(d)) == psize(piece_ast(x, pcs[d])) + pieces_psize(
            x,
            pcs.skip(d + 1),
        ),
{
    assert(pcs.skip(d).drop_first() =~= pcs.skip(d + 1));
}

fn compile_bounded_repetition(rep: &BoundedRepetition, program: &mut Program) -> (f: Fragment)
    requires
        old(program)@.len() + psize(
            SpecAst::BoundedRepetition(Box::new(rep.ast@), rep.n, rep.m, rep.lazy),
        ) <= usize::MAX,
    ensures
        ({
            let (q, s, e) = compile_spec(
                SpecAst::BoundedRepetition(Box::new(rep.ast@), rep.n, rep.m, rep.lazy),
                program_view(old(program)@),
            );
            program_view(final(program)@) == q && f.start == s && f.exit == e
        }),
    decreases sz(rep.ast@) + 2, 2nat,
{
    let ghost x = rep.ast@;
    let ghost pcs = repetition_pieces(rep.n, rep.m, rep.lazy);
    let ghost p0 = program_view(program@);
    let ghost goal = compile_pieces(x, pcs, p0, None);
    let ghost base = p0.len();
    let mut frag: Option<Fragment> = None;
    let ghost mut d: int = 0;
    proof {
        assert(pcs.skip(0) == pcs);
        if pcs.len() > 0 {
            assert(psize(SpecAst::BoundedRepetition(Box::new(x), rep.n, rep.m, rep.lazy))
                == pieces_psize(x, pcs));
        }
    }
    let mut k: u16 = 0;
    while k < rep.n
        invariant
            x == rep.ast@,
            pcs == repetition_pieces(rep.n, rep.m, rep.lazy),
            d == k,
            k <= rep.n,
            base == p0.len(),
            compile_pieces(x, pcs.skip(d), program_view(program@), acc_of(frag)) == goal,
            program@.len() + pieces_psize(x, pcs.skip(d)) <= usize::MAX || pcs.len() == 0,
            frag is None ==> program@.len() == base && d == 0,
            frag matches Some(f) ==> fragment_shape_of(program_view(program@), base, f),
        decreases rep.n - k,
    {
        proof {
            assert(pcs[d] == Piece::Once);
            lemma_pieces_step(x, pcs, d, program_view(program@), acc_of(frag));
            lemma_compile_shape(x, program_view(program@));
        }
        let ghost before = program_view(program@);
        let piece = compile_fragment(&rep.ast, program);
        proof {
            lemma_view_len(program@);
            lemma_piece_join(x, pcs, d, before, acc_of(frag), base);
        }
        frag = Some(join(frag, piece, program));
        k += 1;
        proof {
            d = d + 1;
        }
    }
    match rep.m {
        Some(m) => {
            let mut k: u16 = rep.n;
            while k < m
                invariant
                    x == rep.ast@,
                    pcs == repetition_pieces(rep.n, rep.m, rep.lazy),
                    rep.m == Some(m),
                    d == k,
                    rep.n <= k,
                    k <= m || k == rep.n,
                    base == p0.len(),
                    compile_pieces(x, pcs.skip(d), program_view(program@), acc_of(frag)) == goal,
                    program@.len() + pieces_psize(x, pcs.skip(d)) <= usize::MAX || pcs.len() == 0,
                    frag is None ==> program@.len() == base && d == 0,
                    frag matches Some(f) ==> fragment_shape_of(program_view(program@), base, f),
                decreases m - k,
            {
                proof {
                    assert(pcs[d] == if rep.lazy {
                        Piece::LazyOptional
                    } else {
                        Piece::Optional
                    });
                    lemma_pieces_step(x, pcs, d, program_view(program@), acc_of(frag));
                    lemma_compile_shape(piece_ast(x, pcs[d]), program_view(program@));
                }
                let ghost before = program_view(program@);
                let piece = if rep.lazy {
                    compile_lazy_question(&rep.ast, program)
                } else {
                    compile_question(&rep.ast, program)
                };
                proof {
                    lemma_view_len(program@);
                    lemma_piece_join(x, pcs, d, before, acc_of(frag), base);
                }
                frag = Some(join(frag, piece, program));
                k += 1;
                proof {
                    d = d + 1;
                }
            }
            proof {
                assert(pcs.len() == d);
            }
        },
        None => {
            proof {
                assert(pcs[d] == if rep.lazy {
                    Piece::LazyMany
                } else {
                    Piece::Many
                });
                lemma_pieces_step(x, pcs, d, program_view(program@), acc_of(frag));
                lemma_compile_shape(piece_ast(x, pcs[d]), program_view(program@));
            }
            let ghost before = program_view(program@);
            let piece = if rep.lazy {
                compile_lazy_star(&rep.ast, program)
            } else {
                compile_star(&rep.ast, program)
            };
            proof {
                lemma_view_len(program@);
                lemma_piece_join(x, pcs, d, before, acc_of(frag), base);
            }
            frag = Some(join(frag, piece, program));
            proof {
                d = d + 1;
                assert(pcs.len() == d);
            }
        },
    }
    proof {
        assert(pcs.skip(d).len() == 0);
    }
    match frag {
        None => {
            proof {
                assert(pcs.len() == 0);
            }
            compile_empty(program)
        },
        Some(f) => f,
    }
}

/// Compiling piece `d` and joining it to the fragment built so far leaves the
/// rest of the unrolling to do, and keeps the fragment's shape.
proof fn lemma_piece_join(
    x: SpecAst,
    pcs: Seq<Piece>,
    d: int,
    before: Seq<SpecInst>,
    acc: Option<(nat, nat)>,
    base: nat,
)
    requires
        0 <= d < pcs.len(),
        base <= before.len(),
        acc is None ==> base == before.len(),
        acc matches Some((s, e)) ==> crate::machine::thompson::fragment_shape(before, base, s, e),
    ensures
        ({
            let (p1, s1, e1) = compile_spec(piece_ast(x, pcs[d]), before);
            let p2 = match acc {
                None => p1,
                Some((s, e)) => p1.update(e as int, SpecInst::Jump(s1)),
            };
            let acc2 = match acc {
                None => (s1, e1),
                Some((s, e)) => (s, e1),
            };
            &&& compile_pieces(x, pcs.skip(d), before, acc) == compile_pieces(
                x,
                pcs.skip(d + 1),
                p2,
                Some(acc2),
            )
            &&& crate::machine::thompson::fragment_shape(p2, base, acc2.0, acc2.1)
            &&& p2.len() == before.len() + psize(piece_ast(x, pcs[d]))
            &&& p1.len() == before.len() + psize(piece_ast(x, pcs[d]))
        }),
{
    lemma_pieces_step(x, pcs, d, before, acc);
    let px = piece_ast(x, pcs[d]);
    lemma_compile_shape(px, before);
    let (p1, s1, e1) = compile_spec(px, before);
    match acc {
        None => {},
        Some((s, e)) => {
            let p2 = p1.update(e as int, SpecInst::Jump(s1));
            assert forall|k: int| base <= k < p2.len() && k != e1 implies !(
            #[trigger] p2[k] is Hole) && targets_below(p2[k], p2.len()) by {
                if k < before.len() && k != e {
                    assert(p1[k] == before[k]) by {
                        assert(p1.subrange(0, before.len() as int)[k] == before[k]);
                    }
                }
            }
        },
    }
}

/// A fragment whose exit is still a hole, inside the slots from `base` on.
spec fn fragment_shape_of(p: Seq<SpecInst>, base: nat, f: Fragment) -> bool {
    crate::machine::thompson::fragment_shape(p, base, f.start as nat, f.exit as nat)
}

} // verus!
