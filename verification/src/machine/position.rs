use vstd::prelude::*;

use crate::parser::ast::AnchorKind;

verus! {

/// The position a conditional jump tests: the start or the end of the input.
#[derive(Debug, PartialEq, Eq, Clone, Copy, Structural)]
pub enum Position {
    Start,
    End,
}

/// The position that an anchor tests.
pub open spec fn position_of(anchor: AnchorKind) -> Position {
    match anchor {
        AnchorKind::Start => Position::Start,
        AnchorKind::End => Position::End,
    }
}

impl<'a> From<&'a AnchorKind> for Position {
    /// The position that the anchor tests.
    fn from(anchor: &'a AnchorKind) -> (p: Position) {
        match anchor {
            AnchorKind::Start => Position::Start,
            AnchorKind::End => Position::End,
        }
    }
}

impl<'a> vstd::std_specs::convert::FromSpecImpl<&'a AnchorKind> for Position {
    open spec fn obeys_from_spec() -> bool {
        true
    }

    open spec fn from_spec(anchor: &'a AnchorKind) -> Position {
        position_of(*anchor)
    }
}

} // verus!
