use vstd::prelude::*;

use crate::parser::bounded_repetition::BoundedRepetition;

verus! {

/// The two zero-width assertions: start of input (`^`) and end of input (`$`).
#[derive(Debug, PartialEq, Eq, Clone, Copy, Structural)]
pub enum AnchorKind {
    Start,
    End,
}

#[derive(Debug, PartialEq, Eq)]
pub enum Ast {
    Empty,
    Literal(char),
    Concat(Box<Ast>, Box<Ast>),
    Alternation(Box<Ast>, Box<Ast>),
    Star(Box<Ast>),
    LazyStar(Box<Ast>),
    Plus(Box<Ast>),
    LazyPlus(Box<Ast>),
    Question(Box<Ast>),
    LazyQuestion(Box<Ast>),
    Class(ClassSet, bool),  // bool indicates negation
    Any,
    Anchor(AnchorKind),
    BoundedRepetition(BoundedRepetition),
}

#[derive(Debug, PartialEq, Eq, Clone, Copy, Structural)]
pub enum ClassType {
    Range(char, char),
    Single(char),
}

/// The members of a character class, each item at most once, in the order in
/// which they were first written.
#[derive(Debug, PartialEq, Eq)]
pub struct ClassSet(pub Vec<ClassType>);

/// The mathematical value of an `Ast`: the same tree, with a class's items as
/// a sequence.
pub enum SpecAst {
    Empty,
    Literal(char),
    Concat(Box<SpecAst>, Box<SpecAst>),
    Alternation(Box<SpecAst>, Box<SpecAst>),
    Star(Box<SpecAst>),
    LazyStar(Box<SpecAst>),
    Plus(Box<SpecAst>),
    LazyPlus(Box<SpecAst>),
    Question(Box<SpecAst>),
    LazyQuestion(Box<SpecAst>),
    Class(Seq<ClassType>, bool),
    Any,
    Anchor(AnchorKind),
    /// child, minimum, maximum (`None`: unbounded), lazy
    BoundedRepetition(Box<SpecAst>, u16, Option<u16>, bool),
}

impl Ast {
    pub open spec fn view(&self) -> SpecAst
        decreases self,
    {
        match self {
            Ast::Empty => SpecAst::Empty,
            Ast::Literal(c) => SpecAst::Literal(*c),
            Ast::Concat(l, r) => SpecAst::Concat(Box::new(l.view()), Box::new(r.view())),
            Ast::Alternation(l, r) => SpecAst::Alternation(Box::new(l.view()), Box::new(r.view())),
            Ast::Star(x) => SpecAst::Star(Box::new(x.view())),
            Ast::LazyStar(x) => SpecAst::LazyStar(Box::new(x.view())),
            Ast::Plus(x) => SpecAst::Plus(Box::new(x.view())),
            Ast::LazyPlus(x) => SpecAst::LazyPlus(Box::new(x.view())),
            Ast::Question(x) => SpecAst::Question(Box::new(x.view())),
            Ast::LazyQuestion(x) => SpecAst::LazyQuestion(Box::new(x.view())),
            Ast::Class(set, negated) => SpecAst::Class(set.0@, *negated),
            Ast::Any => SpecAst::Any,
            Ast::Anchor(k) => SpecAst::Anchor(*k),
            Ast::BoundedRepetition(b) => SpecAst::BoundedRepetition(
                Box::new(b.ast.view()),
                b.n,
                b.m,
                b.lazy,
            ),
        }
    }
}

/// `items` with `item` added at the end, unless it is already there.
pub open spec fn set_insert(items: Seq<ClassType>, item: ClassType) -> Seq<ClassType> {
    if items.contains(item) {
        items
    } else {
        items.push(item)
    }
}

/// No item occurs twice.
pub open spec fn no_duplicates(items: Seq<ClassType>) -> bool {
    forall|i: int, j: int| 0 <= i < j < items.len() ==> items[i] != items[j]
}

/// Adding an item to a class keeps it a set: the members are the old ones and
/// the new one, and none occurs twice.
pub proof fn lemma_set_insert(items: Seq<ClassType>, item: ClassType)
    requires
        no_duplicates(items),
    ensures
        no_duplicates(set_insert(items, item)),
        set_insert(items, item).to_set() == items.to_set().insert(item),
{
    let r = set_insert(items, item);
    if !items.contains(item) {
        assert forall|i: int, j: int| 0 <= i < j < r.len() implies r[i] != r[j] by {
            if j == items.len() {
                assert(r[i] == items[i]);
            }
        }
        assert forall|x: ClassType| #[trigger] r.to_set().contains(x) <==> items.to_set().insert(
            item,
        ).contains(x) by {
            if r.contains(x) && x != item {
                let k = choose|k: int| 0 <= k < r.len() && r[k] == x;
                assert(items[k] == x);
            }
            if items.contains(x) {
                let k = choose|k: int| 0 <= k < items.len() && items[k] == x;
                assert(r[k] == x);
            }
            if x == item {
                assert(r[items.len() as int] == x);
            }
        }
    }
    assert(r.to_set() =~= items.to_set().insert(item));
}

impl ClassSet {
    pub fn new() -> (s: Self)
        ensures
            s.0@ == Seq::<ClassType>::empty(),
    {
        ClassSet(Vec::new())
    }

    pub fn from_vec(vec: Vec<ClassType>) -> (s: Self)
        ensures
            s.0@ == vec@,
    {
        ClassSet(vec)
    }

    pub fn push(&mut self, class_type: ClassType)
        ensures
            final(self).0@ == set_insert(old(self).0@, class_type),
    {
        let mut i: usize = 0;
        let mut found = false;
        while i < self.0.len()
            invariant
                i <= self.0@.len(),
                found == exists|k: int| 0 <= k < i && self.0@[k] == class_type,
            decreases self.0@.len() - i,
        {
            if self.0[i] == class_type {
                found = true;
            }
            i += 1;
        }
        if !found {
            self.0.push(class_type);
        } else {
            assert(self.0@.contains(class_type));
        }
    }

    pub fn len(&self) -> (r: usize)
        ensures
            r == self.0@.len(),
    {
        self.0.len()
    }

    pub fn as_slice(&self) -> (r: &[ClassType])
        ensures
            r@ == self.0@,
    {
        self.0.as_slice()
    }
}

impl core::ops::Deref for ClassSet {
    type Target = Vec<ClassType>;

    fn deref(&self) -> (r: &Vec<ClassType>)
        ensures
            *r == self.0,
    {
        &self.0
    }
}

impl core::ops::DerefMut for ClassSet {
    fn deref_mut(&mut self) -> (r: &mut Vec<ClassType>)
        ensures
            *r == old(self).0,
            *final(r) == final(self).0,
    {
        &mut self.0
    }
}

} // verus!
