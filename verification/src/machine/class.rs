use vstd::prelude::*;

use crate::machine::State;
use crate::parser::ast::ClassType;

verus! {

#[derive(Debug, PartialEq, Eq, Clone, Copy, Structural)]
pub enum ClassInstruction {
    Range(char, char),
    Single(char),
}

/// The instruction that tests membership in one class item.
pub open spec fn class_instruction_of(t: ClassType) -> ClassInstruction {
    match t {
        ClassType::Range(s, e) => ClassInstruction::Range(s, e),
        ClassType::Single(c) => ClassInstruction::Single(c),
    }
}

/// The instructions for a class's items, in order.
pub open spec fn class_instructions(items: Seq<ClassType>) -> Seq<ClassInstruction> {
    items.map_values(|t: ClassType| class_instruction_of(t))
}

/// Whether one class item contains `c` (a range by scalar value, both ends included).
pub open spec fn item_contains(i: ClassInstruction, c: char) -> bool {
    match i {
        ClassInstruction::Range(s, e) => s <= c && c <= e,
        ClassInstruction::Single(d) => d == c,
    }
}

/// Whether a class matches `c`: some item contains it, or, for a negated
/// class, none does.
pub open spec fn class_matches(items: Seq<ClassInstruction>, negated: bool, c: char) -> bool {
    negated != (exists|k: int| 0 <= k < items.len() && item_contains(#[trigger] items[k], c))
}

/// Order and repetition among a class's items do not matter: two item lists
/// with the same members match the same characters.
pub proof fn lemma_class_items_as_set(
    a: Seq<ClassInstruction>,
    b: Seq<ClassInstruction>,
    negated: bool,
    c: char,
)
    requires
        a.to_set() == b.to_set(),
    ensures
        class_matches(a, negated, c) == class_matches(b, negated, c),
{
    if exists|k: int| 0 <= k < a.len() && item_contains(#[trigger] a[k], c) {
        let k = choose|k: int| 0 <= k < a.len() && item_contains(#[trigger] a[k], c);
        assert(a.to_set().contains(a[k]));
        assert(b.to_set().contains(a[k]));
        let j = choose|j: int| 0 <= j < b.len() && b[j] == a[k];
        assert(item_contains(b[j], c));
    }
    if exists|k: int| 0 <= k < b.len() && item_contains(#[trigger] b[k], c) {
        let k = choose|k: int| 0 <= k < b.len() && item_contains(#[trigger] b[k], c);
        assert(b.to_set().contains(b[k]));
        assert(a.to_set().contains(b[k]));
        let j = choose|j: int| 0 <= j < a.len() && a[j] == b[k];
        assert(item_contains(a[j], c));
    }
}

/// A negated class matches exactly the characters that the same class without
/// negation does not match: the complement over every `char`.
pub proof fn lemma_class_negation(items: Seq<ClassInstruction>, c: char)
    ensures
        class_matches(items, true, c) == !class_matches(items, false, c),
{
}

/// A range item holds exactly the characters whose scalar values lie from
/// its start's to its end's, both included; a single item holds exactly its
/// character.
pub proof fn lemma_class_item_truth(s: char, e: char, d: char, c: char)
    ensures
        class_matches(seq![ClassInstruction::Range(s, e)], false, c) <==> ((s as int) <= (c as int)
            && (c as int) <= (e as int)),
        class_matches(seq![ClassInstruction::Single(d)], false, c) <==> c == d,
{
    let r = seq![ClassInstruction::Range(s, e)];
    let one = seq![ClassInstruction::Single(d)];
    assert(r[0] == ClassInstruction::Range(s, e));
    assert(one[0] == ClassInstruction::Single(d));
}

/// A class of several items holds what either part holds.
pub proof fn lemma_class_union(a: Seq<ClassInstruction>, b: Seq<ClassInstruction>, c: char)
    ensures
        class_matches(a + b, false, c) <==> (class_matches(a, false, c) || class_matches(b, false, c)),
{
    let ab = a + b;
    if class_matches(a, false, c) {
        let k = choose|k: int| 0 <= k < a.len() && item_contains(#[trigger] a[k], c);
        assert(ab[k] == a[k]);
    }
    if class_matches(b, false, c) {
        let k = choose|k: int| 0 <= k < b.len() && item_contains(#[trigger] b[k], c);
        assert(ab[a.len() + k] == b[k]);
    }
    if class_matches(ab, false, c) {
        let k = choose|k: int| 0 <= k < ab.len() && item_contains(#[trigger] ab[k], c);
        if k < a.len() {
            assert(ab[k] == a[k]);
        } else {
            assert(ab[k] == b[k - a.len()]);
        }
    }
}

impl<'a> From<&'a ClassType> for ClassInstruction {
    /// The instruction that tests membership in the item.
    fn from(class: &'a ClassType) -> (r: ClassInstruction) {
        match class {
            ClassType::Range(start, end) => ClassInstruction::Range(*start, *end),
            ClassType::Single(c) => ClassInstruction::Single(*c),
        }
    }
}

impl<'a> vstd::std_specs::convert::FromSpecImpl<&'a ClassType> for ClassInstruction {
    open spec fn obeys_from_spec() -> bool {
        true
    }

    open spec fn from_spec(class: &'a ClassType) -> ClassInstruction {
        class_instruction_of(*class)
    }
}

/// A class test inside a program: the items, whether the class is negated, and
/// the state to continue at when a character matches.
#[derive(Debug, PartialEq, Eq, Clone)]
pub struct Class {
    instructions: Vec<ClassInstruction>,
    negated: bool,
    exit: State,
}

impl Class {
    pub closed spec fn items(&self) -> Seq<ClassInstruction> {
        self.instructions@
    }

    pub closed spec fn is_negated(&self) -> bool {
        self.negated
    }

    pub closed spec fn exit_state(&self) -> State {
        self.exit
    }

    pub fn new(instructions: Vec<ClassInstruction>, negated: bool, exit: State) -> (c: Self)
        ensures
            c.items() == instructions@,
            c.is_negated() == negated,
            c.exit_state() == exit,
    {
        Class { instructions, negated, exit }
    }

    pub fn exit(&self) -> (r: State)
        ensures
            r == self.exit_state(),
    {
        self.exit
    }

    pub fn match_c(&self, c: char) -> (r: bool)
        ensures
            r == class_matches(self.items(), self.is_negated(), c),
    {
        let mut matched = false;
        let mut k: usize = 0;
        while k < self.instructions.len()
            invariant_except_break
                !matched,
            invariant
                k <= self.instructions@.len(),
                forall|j: int| 0 <= j < k ==> !item_contains(#[trigger] self.instructions@[j], c),
            ensures
                matched == exists|j: int|
                    0 <= j < self.instructions@.len() && item_contains(
                        #[trigger] self.instructions@[j],
                        c,
                    ),
            decreases self.instructions@.len() - k,
        {
            match &self.instructions[k] {
                ClassInstruction::Range(start, end) => {
                    if *start <= c && c <= *end {
                        matched = true;
                        assert(item_contains(self.instructions@[k as int], c));
                        break;
                    }
                },
                ClassInstruction::Single(ch) => {
                    if *ch == c {
                        matched = true;
                        assert(item_contains(self.instructions@[k as int], c));
                        break;
                    }
                },
            }
            k += 1;
        }
        if self.negated {
            !matched
        } else {
            matched
        }
    }
}

} // verus!
