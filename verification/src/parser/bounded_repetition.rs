use vstd::prelude::*;

use crate::parser::ast::Ast;

verus! {

/// `ast{n,m}`: at least `n` and at most `m` repetitions (`m == None`: no upper
/// bound); `lazy` prefers fewer.
#[derive(Debug, PartialEq, Eq)]
pub struct BoundedRepetition {
    pub ast: Box<Ast>,
    pub n: u16,
    pub m: Option<u16>,
    pub lazy: bool,
}

} // verus!
