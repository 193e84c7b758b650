use vstd::prelude::*;

use crate::machine::class::{Class, ClassInstruction};
use crate::machine::position::Position;
use crate::machine::State;

verus! {

/// An instruction of a program under construction; a `Hole` is a slot whose
/// instruction is not known yet.
#[derive(Debug, PartialEq, Eq)]
pub enum Instruction {
    Hole,
    Consume(char, State),
    ConsumeAny(State),
    ConsumeClass(Class),
    Jump(State),
    Split(State, State),
    ConditionalJump(Position, State),
    Match,
}

/// An instruction of a finished program.
#[derive(Debug, PartialEq, Eq, Clone)]
pub enum ValidInstruction {
    Consume(char, State),
    ConsumeAny(State),
    ConsumeClass(Class),
    Jump(State),
    Split(State, State),
    ConditionalJump(Position, State),
    Match,
}

/// The mathematical value of an instruction; a class is its items, whether
/// it is negated, and its exit.
pub enum SpecInst {
    Hole,
    Consume(char, nat),
    ConsumeAny(nat),
    ConsumeClass(Seq<ClassInstruction>, bool, nat),
    Jump(nat),
    Split(nat, nat),
    ConditionalJump(Position, nat),
    Match,
}

impl Instruction {
    pub open spec fn view(&self) -> SpecInst {
        match self {
            Instruction::Hole => SpecInst::Hole,
            Instruction::Consume(c, s) => SpecInst::Consume(*c, *s as nat),
            Instruction::ConsumeAny(s) => SpecInst::ConsumeAny(*s as nat),
            Instruction::ConsumeClass(class) => SpecInst::ConsumeClass(
                class.items(),
                class.is_negated(),
                class.exit_state() as nat,
            ),
            Instruction::Jump(s) => SpecInst::Jump(*s as nat),
            Instruction::Split(a, b) => SpecInst::Split(*a as nat, *b as nat),
            Instruction::ConditionalJump(p, s) => SpecInst::ConditionalJump(*p, *s as nat),
            Instruction::Match => SpecInst::Match,
        }
    }
}

impl ValidInstruction {
    pub open spec fn view(&self) -> SpecInst {
        match self {
            ValidInstruction::Consume(c, s) => SpecInst::Consume(*c, *s as nat),
            ValidInstruction::ConsumeAny(s) => SpecInst::ConsumeAny(*s as nat),
            ValidInstruction::ConsumeClass(class) => SpecInst::ConsumeClass(
                class.items(),
                class.is_negated(),
                class.exit_state() as nat,
            ),
            ValidInstruction::Jump(s) => SpecInst::Jump(*s as nat),
            ValidInstruction::Split(a, b) => SpecInst::Split(*a as nat, *b as nat),
            ValidInstruction::ConditionalJump(p, s) => SpecInst::ConditionalJump(*p, *s as nat),
            ValidInstruction::Match => SpecInst::Match,
        }
    }
}

pub type Program = Vec<Instruction>;

/// The mathematical value of a program.
pub open spec fn program_view(p: Seq<Instruction>) -> Seq<SpecInst> {
    p.map_values(|i: Instruction| i@)
}

/// A program with no holes.
pub struct ValidProgram {
    program: Vec<ValidInstruction>,
}

impl ValidProgram {
    pub closed spec fn view(&self) -> Seq<SpecInst> {
        self.program@.map_values(|i: ValidInstruction| i@)
    }

    /// Accepts a program exactly when it holds no hole; the instructions are
    /// kept as they are.
    pub fn new(program: Program) -> (r: Result<Self, String>)
        ensures
            (r is Ok) == (forall|k: int| 0 <= k < program@.len() ==> !(program@[k] is Hole)),
            r matches Ok(v) ==> v@ == program_view(program@),
            r matches Err(e) ==> e@ == "Program contains a hole"@,
    {
        let ghost given = program@;
        let mut valid_program: Vec<ValidInstruction> = Vec::new();
        for inst in it: program
            invariant
                it.seq() == given,
                valid_program@.len() == it.index(),
                forall|k: int|
                    0 <= k < valid_program@.len() ==> (#[trigger] valid_program@[k])@
                        == given[k]@,
                forall|k: int| 0 <= k < valid_program@.len() ==> !(given[k] is Hole),
        {
            let converted = match inst {
                Instruction::Hole => {
                    let e = "Program contains a hole".to_string();
                    return Err(e);
                },
                Instruction::Consume(c, s) => ValidInstruction::Consume(c, s),
                Instruction::ConsumeAny(s) => ValidInstruction::ConsumeAny(s),
                Instruction::ConsumeClass(class) => ValidInstruction::ConsumeClass(class),
                Instruction::Jump(s) => ValidInstruction::Jump(s),
                Instruction::Split(s1, s2) => ValidInstruction::Split(s1, s2),
                Instruction::ConditionalJump(p, s) => ValidInstruction::ConditionalJump(p, s),
                Instruction::Match => ValidInstruction::Match,
            };
            valid_program.push(converted);
        }
        let r = ValidProgram { program: valid_program };
        assert(r@ =~= program_view(given));
        Ok(r)
    }

    pub fn len(&self) -> (r: usize)
        ensures
            r == self@.len(),
    {
        self.program.len()
    }

    pub fn as_slice(&self) -> (r: &[ValidInstruction])
        ensures
            r@.map_values(|i: ValidInstruction| i@) == self@,
    {
        self.program.as_slice()
    }

    pub fn get(&self, i: usize) -> (r: &ValidInstruction)
        requires
            i < self@.len(),
        ensures
            r@ == self@[i as int],
    {
        &self.program[i]
    }
}

impl core::ops::Deref for ValidProgram {
    type Target = [ValidInstruction];

    fn deref(&self) -> (r: &[ValidInstruction])
        ensures
            r@.map_values(|i: ValidInstruction| i@) == self@,
    {
        self.program.as_slice()
    }
}

} // verus!
