pub mod ast;
pub mod bounded_repetition;
pub mod grammar;

use vstd::prelude::*;

use crate::cursor::{Cursor, OverFlowResult};
use crate::parser::ast::{AnchorKind, Ast, ClassSet, ClassType, SpecAst};
use crate::parser::bounded_repetition::BoundedRepetition;
use crate::parser::grammar::{
    alternation_spec, atom_spec, bounded_comma_start_spec, bounded_exact_spec, bounded_spec,
    bounded_unbounded_spec, class_spec, concat_spec, lazy_suffix, parse_spec, quantifiers_spec,
    repetition_spec, token_or_nul, Parsed, SpecParserError, well_shaped, lemma_parse_well_shaped,
    drained, lemma_quantifiers_drained,
};

verus! {

#[derive(Debug, PartialEq, Eq)]
pub enum ParserError {
    UnexpectedToken(char),
    InvalidRange(char, char),
    LimitExceeded(String),
    MinimumGreaterThanMaximum(u16, u16),
    UnexpectedEndOfInput,
}

impl ParserError {
    pub open spec fn view(&self) -> SpecParserError {
        match self {
            ParserError::UnexpectedToken(c) => SpecParserError::UnexpectedToken(*c),
            ParserError::InvalidRange(a, b) => SpecParserError::InvalidRange(*a, *b),
            ParserError::LimitExceeded(s) => SpecParserError::LimitExceeded(s@),
            ParserError::MinimumGreaterThanMaximum(n, m) => SpecParserError::MinimumGreaterThanMaximum(
                *n,
                *m,
            ),
            ParserError::UnexpectedEndOfInput => SpecParserError::UnexpectedEndOfInput,
        }
    }
}

/// The parser's result agrees with what the grammar gives, and the cursor
/// stands where the grammar says.
pub open spec fn agrees(r: Result<Ast, ParserError>, expected: Parsed, pos: int) -> bool {
    match expected {
        Ok((a, q)) => r matches Ok(x) && x@ == a && pos == q,
        Err(e) => r matches Err(x) && x@ == e,
    }
}

/// Parses a whole pattern.
pub fn parse(input: &str) -> (r: Result<Ast, ParserError>)
    ensures
        match parse_spec(input@) {
            Ok(a) => r matches Ok(x) && x@ == a,
            Err(e) => r matches Err(x) && x@ == e,
        },
        r matches Ok(x) ==> well_shaped(x@),
{
    proof {
        lemma_parse_well_shaped(input@);
    }
    let mut parser = Cursor::new(input);
    let result = parse_alternation(&mut parser);
    let result = match result {
        Ok(r) => r,
        Err(e) => return Err(e),
    };
    if parser.is_eof() {
        Ok(result)
    } else {
        match parser.peek() {
            Some(c) => Err(ParserError::UnexpectedToken(c)),
            None => Err(ParserError::UnexpectedEndOfInput),
        }
    }
}

fn parse_alternation(cursor: &mut Cursor) -> (r: Result<Ast, ParserError>)
    requires
        0 <= old(cursor).pos() <= old(cursor).chars().len(),
    ensures
        final(cursor).chars() == old(cursor).chars(),
        agrees(r, alternation_spec(old(cursor).chars(), old(cursor).pos()), final(cursor).pos()),
        r is Ok ==> old(cursor).pos() <= final(cursor).pos() <= final(cursor).chars().len(),
    decreases old(cursor).chars().len() - old(cursor).pos(), 3int,
{
    let node1 = match parse_concat(cursor) {
        Ok(n) => n,
        Err(e) => return Err(e),
    };
    if !cursor.eat('|') {
        return Ok(node1);
    }
    let node2 = match parse_alternation(cursor) {
        Ok(n) => n,
        Err(e) => return Err(e),
    };
    Ok(Ast::Alternation(Box::new(node1), Box::new(node2)))
}

fn parse_concat(cursor: &mut Cursor) -> (r: Result<Ast, ParserError>)
    requires
        0 <= old(cursor).pos() <= old(cursor).chars().len(),
    ensures
        final(cursor).chars() == old(cursor).chars(),
        agrees(r, concat_spec(old(cursor).chars(), old(cursor).pos()), final(cursor).pos()),
        r is Ok ==> old(cursor).pos() <= final(cursor).pos() <= final(cursor).chars().len(),
    decreases old(cursor).chars().len() - old(cursor).pos(), 2int,
{
    let peak = cursor.peek();
    match peak {
        None => return Ok(Ast::Empty),
        Some(')') | Some('|') => return Ok(Ast::Empty),
        _ => {},
    }
    let node1 = match parse_repetition(cursor) {
        Ok(n) => n,
        Err(e) => return Err(e),
    };
    let peak = cursor.peek();
    let node2 = match peak {
        None => Ast::Empty,
        Some(')') | Some('|') => Ast::Empty,
        _ => match parse_concat(cursor) {
            Ok(n) => n,
            Err(e) => return Err(e),
        },
    };
    match (node1, node2) {
        (node1, Ast::Empty) => Ok(node1),
        (Ast::Empty, node2) => Ok(node2),
        (node1, node2) => Ok(Ast::Concat(Box::new(node1), Box::new(node2))),
    }
}

fn parse_repetition(cursor: &mut Cursor) -> (r: Result<Ast, ParserError>)
    requires
        0 <= old(cursor).pos() <= old(cursor).chars().len(),
    ensures
        final(cursor).chars() == old(cursor).chars(),
        agrees(r, repetition_spec(old(cursor).chars(), old(cursor).pos()), final(cursor).pos()),
        r is Ok ==> old(cursor).pos() < final(cursor).pos() <= final(cursor).chars().len(),
        r matches Ok(x) ==> drained(final(cursor).chars(), final(cursor).pos(), x@),
    decreases old(cursor).chars().len() - old(cursor).pos(), 1int,
{
    let ghost s = cursor.chars();
    let mut node = match parse_atom(cursor) {
        Ok(n) => n,
        Err(e) => return Err(e),
    };
    let ghost q0 = cursor.pos();
    let ghost goal = quantifiers_spec(s, q0, node@);
    proof {
        lemma_quantifiers_drained(s, q0, node@);
    }
    loop
        invariant_except_break
            quantifiers_spec(s, cursor.pos(), node@) == goal,
        invariant
            cursor.chars() == s,
            s == old(cursor).chars(),
            repetition_spec(s, old(cursor).pos()) == goal,
            old(cursor).pos() < q0 <= cursor.pos() <= s.len(),
        ensures
            cursor.chars() == s,
            old(cursor).pos() < cursor.pos() <= s.len(),
            goal == Ok::<(SpecAst, int), SpecParserError>((node@, cursor.pos())),
        decreases s.len() - cursor.pos(),
    {
        let c = match cursor.peek() {
            None => break,
            Some(c) => c,
        };
        if c == '*' {
            cursor.next();
            if cursor.peek() == Some('?') {
                cursor.next();
                node = Ast::LazyStar(Box::new(node));
                continue;
            }
            node = Ast::Star(Box::new(node));
        } else if c == '+' {
            cursor.next();
            if cursor.peek() == Some('?') {
                cursor.next();
                node = Ast::LazyPlus(Box::new(node));
                continue;
            }
            node = Ast::Plus(Box::new(node));
        } else if c == '?' {
            cursor.next();
            if cursor.peek() == Some('?') {
                cursor.next();
                node = Ast::LazyQuestion(Box::new(node));
                continue;
            }
            node = Ast::Question(Box::new(node));
        } else if c == '{' {
            let initial_offset: usize = cursor.offset();
            node = match parse_bonded_repetition(cursor, node) {
                Ok(n) => n,
                Err(e) => return Err(e),
            };
            if cursor.offset() == initial_offset {
                // nothing was consumed: stop here, or the loop would never end
                break;
            }
        } else {
            break;
        }
    }
    Ok(node)
}

fn check_lazy(cursor: &Cursor, offset: &mut usize) -> (r: bool)
    requires
        cursor.pos() + *old(offset) <= usize::MAX,
        0 <= cursor.pos(),
    ensures
        (r, *final(offset) as int) == lazy_suffix(cursor.chars(), cursor.pos(), *old(offset) as int),
{
    proof {
        cursor.lemma_len_fits();
    }
    if cursor.peek_at(*offset) == Some('?') {
        *offset += 1;
        return true;
    }
    false
}

fn parse_bonded_repetition(cursor: &mut Cursor, node: Ast) -> (r: Result<Ast, ParserError>)
    requires
        0 <= old(cursor).pos() < old(cursor).chars().len(),
    ensures
        final(cursor).chars() == old(cursor).chars(),
        agrees(r, bounded_spec(old(cursor).chars(), old(cursor).pos(), node@), final(cursor).pos()),
        r is Ok ==> old(cursor).pos() <= final(cursor).pos() <= final(cursor).chars().len(),
        r is Err ==> final(cursor).pos() == old(cursor).pos(),
{
    proof {
        cursor.lemma_len_fits();
    }
    let ghost s = cursor.chars();
    let ghost pos = cursor.pos();
    // Everything here is read by peeking; the cursor only moves once a whole
    // quantifier has been recognised.
    let mut offset: usize = 1;
    offset = cursor.offset_whitespace_at(offset);
    let n1 = match cursor.peek_at(offset) {
        None => return Ok(node),
        Some(c) => c,
    };
    if n1 == ',' {
        return parse_bonded_repetition_comma_start(cursor, node, offset);
    }
    let n1 = match cursor.peek_number_at(offset) {
        None => return Ok(node),
        Some(r) => r,
    };
    offset = n1.offset;
    offset = cursor.offset_whitespace_at(offset);
    let n2 = match cursor.peek_at(offset) {
        None => return Ok(node),
        Some(c) => c,
    };
    if n2 != ',' && n2 != '}' {
        return Ok(node);
    }
    offset += 1;
    if n2 == '}' {
        return parse_bonded_repetition_exact(cursor, node, n1, offset);
    }
    offset = cursor.offset_whitespace_at(offset);
    if cursor.peek_at(offset) == Some('}') {
        offset += 1;
        return parse_bonded_repetition_unbounded(cursor, node, n1, offset);
    }
    let n3 = match cursor.peek_number_at(offset) {
        None => return Ok(node),
        Some(r) => r,
    };
    offset = n3.offset;
    offset = cursor.offset_whitespace_at(offset);
    let n4 = match cursor.peek_at(offset) {
        Some(c) => c,
        None => return Ok(node),
    };
    if n4 != '}' {
        return Ok(node);
    }
    offset += 1;
    let (n, m) = match (n1.result, n3.result) {
        (Ok(n), Ok(m)) => (n, m),
        _ => {
            let string = cursor.string_offset(offset);
            return Err(ParserError::LimitExceeded(string));
        },
    };
    if n > m {
        return Err(ParserError::MinimumGreaterThanMaximum(n, m));
    }
    let lazy = check_lazy(cursor, &mut offset);
    cursor.move_to(offset);
    let bonded_repetition = BoundedRepetition { ast: Box::new(node), lazy, n, m: Some(m) };
    Ok(Ast::BoundedRepetition(bonded_repetition))
}

fn parse_bonded_repetition_comma_start(cursor: &mut Cursor, node: Ast, offset: usize) -> (r:
    Result<Ast, ParserError>)
    requires
        0 <= old(cursor).pos(),
        old(cursor).pos() + offset < old(cursor).chars().len(),
    ensures
        final(cursor).chars() == old(cursor).chars(),
        agrees(
            r,
            bounded_comma_start_spec(old(cursor).chars(), old(cursor).pos(), node@, offset as int),
            final(cursor).pos(),
        ),
        r is Ok ==> old(cursor).pos() <= final(cursor).pos() <= final(cursor).chars().len(),
        r is Err ==> final(cursor).pos() == old(cursor).pos(),
{
    proof {
        cursor.lemma_len_fits();
    }
    let mut offset = offset + 1;
    offset = cursor.offset_whitespace_at(offset);
    let n2 = match cursor.peek_number_at(offset) {
        None => return Ok(node),
        Some(r) => r,
    };
    let num = match n2.result {
        Err(_) => {
            offset = n2.offset;
            offset = cursor.offset_whitespace_at(offset);
            if cursor.peek_at(offset) == Some('}') {
                offset += 1;
                let string = cursor.string_offset(offset);
                return Err(ParserError::LimitExceeded(string));
            }
            return Ok(node);
        },
        Ok(r) => r,
    };
    offset = n2.offset;
    offset = cursor.offset_whitespace_at(offset);
    if cursor.peek_at(offset) != Some('}') {
        return Ok(node);
    }
    offset += 1;
    let lazy = check_lazy(cursor, &mut offset);
    cursor.move_to(offset);
    let bonded_repetition = BoundedRepetition { ast: Box::new(node), lazy, n: 0, m: Some(num) };
    Ok(Ast::BoundedRepetition(bonded_repetition))
}

fn parse_bonded_repetition_exact(
    cursor: &mut Cursor,
    node: Ast,
    result: OverFlowResult,
    offset: usize,
) -> (r: Result<Ast, ParserError>)
    requires
        0 <= old(cursor).pos(),
        1 <= offset,
        old(cursor).pos() + offset <= old(cursor).chars().len(),
    ensures
        final(cursor).chars() == old(cursor).chars(),
        agrees(
            r,
            bounded_exact_spec(
                old(cursor).chars(),
                old(cursor).pos(),
                node@,
                result.result,
                offset as int,
            ),
            final(cursor).pos(),
        ),
        r is Ok ==> old(cursor).pos() < final(cursor).pos() <= final(cursor).chars().len(),
        r is Err ==> final(cursor).pos() == old(cursor).pos(),
{
    proof {
        cursor.lemma_len_fits();
    }
    let num = match result.result {
        Err(_) => {
            let string = cursor.string_offset(offset);
            return Err(ParserError::LimitExceeded(string));
        },
        Ok(r) => r,
    };
    let mut offset = offset;
    let lazy = check_lazy(cursor, &mut offset);
    cursor.move_to(offset);
    let bonded_repetition = BoundedRepetition { ast: Box::new(node), lazy, n: num, m: Some(num) };
    Ok(Ast::BoundedRepetition(bonded_repetition))
}

fn parse_bonded_repetition_unbounded(
    cursor: &mut Cursor,
    node: Ast,
    result: OverFlowResult,
    offset: usize,
) -> (r: Result<Ast, ParserError>)
    requires
        0 <= old(cursor).pos(),
        1 <= offset,
        old(cursor).pos() + offset <= old(cursor).chars().len(),
    ensures
        final(cursor).chars() == old(cursor).chars(),
        agrees(
            r,
            bounded_unbounded_spec(
                old(cursor).chars(),
                old(cursor).pos(),
                node@,
                result.result,
                offset as int,
            ),
            final(cursor).pos(),
        ),
        r is Ok ==> old(cursor).pos() < final(cursor).pos() <= final(cursor).chars().len(),
        r is Err ==> final(cursor).pos() == old(cursor).pos(),
{
    proof {
        cursor.lemma_len_fits();
    }
    let num = match result.result {
        Err(_) => {
            let string = cursor.string_offset(offset);
            return Err(ParserError::LimitExceeded(string));
        },
        Ok(r) => r,
    };
    let mut offset = offset;
    let lazy = check_lazy(cursor, &mut offset);
    cursor.move_to(offset);
    let bonded_repetition = BoundedRepetition { ast: Box::new(node), lazy, n: num, m: None };
    Ok(Ast::BoundedRepetition(bonded_repetition))
}

fn parse_atom(cursor: &mut Cursor) -> (r: Result<Ast, ParserError>)
    requires
        0 <= old(cursor).pos() <= old(cursor).chars().len(),
    ensures
        final(cursor).chars() == old(cursor).chars(),
        agrees(r, atom_spec(old(cursor).chars(), old(cursor).pos()), final(cursor).pos()),
        r is Ok ==> old(cursor).pos() < final(cursor).pos() <= final(cursor).chars().len(),
    decreases old(cursor).chars().len() - old(cursor).pos(), 0int,
{
    let ghost s = cursor.chars();
    let ghost pos = cursor.pos();
    let peek = cursor.peek();
    let c = match peek {
        None => return Err(ParserError::UnexpectedEndOfInput),
        Some(c) => c,
    };
    if c == '.' {
        cursor.next();
        let r = Ast::Any;
        assert(r@ == SpecAst::Any);
        assert(agrees(Ok(r), atom_spec(s, pos), cursor.pos()));
        Ok(r)
    } else if c == '[' {
        cursor.next();
        let node = match parse_class(cursor) {
            Ok(n) => n,
            Err(e) => return Err(e),
        };
        if cursor.peek() == Some(']') {
            cursor.next();
            assert(agrees(Ok(node), atom_spec(s, pos), cursor.pos()));
            Ok(node)
        } else {
            let r = Err(ParserError::UnexpectedToken(nul_or(cursor.peek())));
            assert(agrees(r, atom_spec(s, pos), cursor.pos()));
            r
        }
    } else if c == '*' || c == '+' || c == '?' || c == '|' || c == ')' {
        Err(ParserError::UnexpectedToken(c))
    } else if c == '(' {
        cursor.next();
        let node = match parse_alternation(cursor) {
            Ok(n) => n,
            Err(e) => return Err(e),
        };
        if cursor.peek() == Some(')') {
            cursor.next();
            assert(agrees(Ok(node), atom_spec(s, pos), cursor.pos()));
            Ok(node)
        } else {
            let r = Err(ParserError::UnexpectedToken(nul_or(cursor.peek())));
            assert(agrees(r, atom_spec(s, pos), cursor.pos()));
            r
        }
    } else if c == '\\' {
        cursor.next();
        let escaped = cursor.next();
        let r = match escaped {
            None => Err(ParserError::UnexpectedEndOfInput),
            Some(e) => Ok(literal(e)),
        };
        assert(agrees(r, atom_spec(s, pos), cursor.pos()));
        r
    } else if c == '^' {
        cursor.next();
        let r = Ast::Anchor(AnchorKind::Start);
        assert(agrees(Ok(r), atom_spec(s, pos), cursor.pos()));
        Ok(r)
    } else if c == '$' {
        cursor.next();
        let r = Ast::Anchor(AnchorKind::End);
        assert(agrees(Ok(r), atom_spec(s, pos), cursor.pos()));
        Ok(r)
    } else {
        cursor.next();
        let r = Ok(literal(c));
        assert(agrees(r, atom_spec(s, pos), cursor.pos()));
        r
    }
}

fn literal(c: char) -> (r: Ast)
    ensures
        r@ == SpecAst::Literal(c),
{
    Ast::Literal(c)
}

/// The character, or NUL when there is none.
fn nul_or(c: Option<char>) -> (r: char)
    ensures
        r == token_or_nul(c),
{
    match c {
        Some(c) => c,
        None => '\0',
    }
}

fn parse_class(cursor: &mut Cursor) -> (r: Result<Ast, ParserError>)
    requires
        0 <= old(cursor).pos() <= old(cursor).chars().len(),
    ensures
        final(cursor).chars() == old(cursor).chars(),
        agrees(
            r,
            class_spec(old(cursor).chars(), old(cursor).pos(), Seq::empty(), false, true),
            final(cursor).pos(),
        ),
        r is Ok ==> old(cursor).pos() <= final(cursor).pos() < final(cursor).chars().len(),
{
    let ghost s = cursor.chars();
    let ghost goal = class_spec(s, cursor.pos(), Seq::empty(), false, true);
    let mut class = ClassSet::new();
    let mut negation = false;
    let mut start = true;
    loop
        invariant
            cursor.chars() == s,
            s == old(cursor).chars(),
            goal == class_spec(s, old(cursor).pos(), Seq::empty(), false, true),
            old(cursor).pos() <= cursor.pos() <= s.len(),
            class_spec(s, cursor.pos(), class.0@, negation, start) == goal,
        decreases s.len() - cursor.pos(),
    {
        let c = match cursor.peek() {
            None => return Err(ParserError::UnexpectedEndOfInput),
            Some(c) => c,
        };
        if c == ']' {
            return Ok(Ast::Class(class, negation));
        }
        cursor.next();
        if c == '^' && start {
            negation = true;
            start = false;
            continue;
        }
        start = false;
        // `\` makes the next character a member as it is.
        let c = if c == '\\' {
            match cursor.next() {
                None => return Err(ParserError::UnexpectedEndOfInput),
                Some(e) => e,
            }
        } else {
            c
        };
        let n = match cursor.peek() {
            None => {
                class.push(ClassType::Single(c));
                continue;
            },
            Some(n) => n,
        };
        if n != '-' {
            class.push(ClassType::Single(c));
            continue;
        }
        let n2 = match cursor.peek_at(1) {
            None => {
                class.push(ClassType::Single(c));
                continue;
            },
            Some(n) => n,
        };
        if n2 == ']' {
            class.push(ClassType::Single(c));
            continue;
        }
        // A range: consume the `-` and its end.
        cursor.next();
        cursor.next();
        let escaped = n2 == '\\';
        let end = if escaped {
            match cursor.next() {
                None => return Err(ParserError::UnexpectedEndOfInput),
                Some(e) => e,
            }
        } else {
            n2
        };
        // An escaped `]` is kept as written; every other range must be in order.
        if !(escaped && end == ']') && c > end {
            return Err(ParserError::InvalidRange(c, end));
        }
        class.push(ClassType::Range(c, end));
    }
}

} // verus!
