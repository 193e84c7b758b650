use vstd::prelude::*;

use crate::cursor::{char_at, char_is_numeric, digits_end, digits_value, is_decimal_digit, is_white_space, number_at, skip_white_space, window};
use crate::parser::ast::{set_insert, AnchorKind, ClassType, SpecAst};

verus! {

/// The mathematical value of a parser error.
pub enum SpecParserError {
    UnexpectedToken(char),
    InvalidRange(char, char),
    LimitExceeded(Seq<char>),
    MinimumGreaterThanMaximum(u16, u16),
    UnexpectedEndOfInput,
}

/// What parsing from a position gives: the tree and the position after it,
/// or an error.
pub type Parsed = Result<(SpecAst, int), SpecParserError>;

/// The whole pattern `s`: an alternation that must reach the end of input.
pub open spec fn parse_spec(s: Seq<char>) -> Result<SpecAst, SpecParserError> {
    match alternation_spec(s, 0) {
        Err(e) => Err(e),
        Ok((a, q)) => if q >= s.len() {
            Ok(a)
        } else {
            Err(SpecParserError::UnexpectedToken(s[q]))
        },
    }
}

/// `alternation := concat ('|' alternation)?`, right associative.
pub open spec fn alternation_spec(s: Seq<char>, pos: int) -> Parsed
    decreases s.len() - pos, 3int,
{
    if pos < 0 || pos > s.len() {
        Err(SpecParserError::UnexpectedEndOfInput)
    } else {
        match concat_spec(s, pos) {
            Err(e) => Err(e),
            Ok((n1, q)) => if char_at(s, q, 0) == Some('|') && pos <= q {
                match alternation_spec(s, q + 1) {
                    Err(e) => Err(e),
                    Ok((n2, r)) => Ok((SpecAst::Alternation(Box::new(n1), Box::new(n2)), r)),
                }
            } else {
                Ok((n1, q))
            },
        }
    }
}

/// A character that ends a concatenation (or an absent one, at the end).
pub open spec fn ends_concat(c: Option<char>) -> bool {
    c is None || c == Some(')') || c == Some('|')
}

/// `concat := repetition concat?`, right associative; empty before `)`, `|` or
/// the end of input. An empty part (such as `()`) is left out, so no
/// concatenation has an empty side.
pub open spec fn concat_spec(s: Seq<char>, pos: int) -> Parsed
    decreases s.len() - pos, 2int,
{
    if pos < 0 || pos > s.len() {
        Err(SpecParserError::UnexpectedEndOfInput)
    } else if ends_concat(char_at(s, pos, 0)) {
        Ok((SpecAst::Empty, pos))
    } else {
        match repetition_spec(s, pos) {
            Err(e) => Err(e),
            Ok((n1, q)) => if ends_concat(char_at(s, q, 0)) || q <= pos {
                Ok((n1, q))
            } else {
                match concat_spec(s, q) {
                    Err(e) => Err(e),
                    Ok((n2, r)) => if n2 is Empty {
                        Ok((n1, r))
                    } else if n1 is Empty {
                        Ok((n2, r))
                    } else {
                        Ok((SpecAst::Concat(Box::new(n1), Box::new(n2)), r))
                    },
                }
            },
        }
    }
}

/// `repetition := atom quantifier*`.
pub open spec fn repetition_spec(s: Seq<char>, pos: int) -> Parsed
    decreases s.len() - pos, 1int,
{
    if pos < 0 || pos > s.len() {
        Err(SpecParserError::UnexpectedEndOfInput)
    } else {
        match atom_spec(s, pos) {
            Err(e) => Err(e),
            Ok((node, q)) => quantifiers_spec(s, q, node),
        }
    }
}

/// The quantifiers after an atom, each wrapping what came before: `*`, `+`,
/// `?`, each made lazy by a following `?`, and `{n,m}`.
pub open spec fn quantifiers_spec(s: Seq<char>, q: int, node: SpecAst) -> Parsed
    decreases s.len() - q,
{
    if q < 0 || q > s.len() {
        Ok((node, q))
    } else {
        match char_at(s, q, 0) {
            Some('*') => if char_at(s, q, 1) == Some('?') {
                quantifiers_spec(s, q + 2, SpecAst::LazyStar(Box::new(node)))
            } else {
                quantifiers_spec(s, q + 1, SpecAst::Star(Box::new(node)))
            },
            Some('+') => if char_at(s, q, 1) == Some('?') {
                quantifiers_spec(s, q + 2, SpecAst::LazyPlus(Box::new(node)))
            } else {
                quantifiers_spec(s, q + 1, SpecAst::Plus(Box::new(node)))
            },
            Some('?') => if char_at(s, q, 1) == Some('?') {
                quantifiers_spec(s, q + 2, SpecAst::LazyQuestion(Box::new(node)))
            } else {
                quantifiers_spec(s, q + 1, SpecAst::Question(Box::new(node)))
            },
            Some('{') => match bounded_spec(s, q, node) {
                Err(e) => Err(e),
                Ok((n2, q2)) => if q2 <= q || q2 > s.len() {
                    Ok((n2, q2))
                } else {
                    quantifiers_spec(s, q2, n2)
                },
            },
            _ => Ok((node, q)),
        }
    }
}

/// `atom := CHAR | '.' | '[' class ']' | '(' alternation ')' | '\' CHAR | '^' | '$'`.
pub open spec fn atom_spec(s: Seq<char>, pos: int) -> Parsed
    decreases s.len() - pos, 0int,
{
    match char_at(s, pos, 0) {
        None => Err(SpecParserError::UnexpectedEndOfInput),
        Some(c) => if c == '.' {
            Ok((SpecAst::Any, pos + 1))
        } else if c == '[' {
            match class_spec(s, pos + 1, Seq::empty(), false, true) {
                Err(e) => Err(e),
                Ok((node, q)) => if char_at(s, q, 0) == Some(']') {
                    Ok((node, q + 1))
                } else {
                    Err(SpecParserError::UnexpectedToken(token_or_nul(char_at(s, q, 0))))
                },
            }
        } else if c == '*' || c == '+' || c == '?' || c == '|' || c == ')' {
            Err(SpecParserError::UnexpectedToken(c))
        } else if c == '(' {
            match alternation_spec(s, pos + 1) {
                Err(e) => Err(e),
                Ok((node, q)) => if char_at(s, q, 0) == Some(')') {
                    Ok((node, q + 1))
                } else {
                    Err(SpecParserError::UnexpectedToken(token_or_nul(char_at(s, q, 0))))
                },
            }
        } else if c == '\\' {
            match char_at(s, pos, 1) {
                None => Err(SpecParserError::UnexpectedEndOfInput),
                Some(e) => Ok((SpecAst::Literal(e), pos + 2)),
            }
        } else if c == '^' {
            Ok((SpecAst::Anchor(AnchorKind::Start), pos + 1))
        } else if c == '$' {
            Ok((SpecAst::Anchor(AnchorKind::End), pos + 1))
        } else {
            Ok((SpecAst::Literal(c), pos + 1))
        },
    }
}

/// The character, or NUL when there is none.
pub open spec fn token_or_nul(c: Option<char>) -> char {
    match c {
        Some(c) => c,
        None => '\0',
    }
}

/// The body of a class, up to (not past) its closing `]`. `items` are the
/// members so far; `start` holds until the first character is read, and a
/// `^` read then negates the class. `\` makes the next character a member as
/// it is; `a-b` is a range when a character follows the `-` and it is not
/// `]`. A range's end may be escaped too; it is resolved first, and the range
/// must not end before it starts. The one exception is an escaped `]`, the
/// only way to end a range with `]`: such a range is kept as written.
pub open spec fn class_spec(
    s: Seq<char>,
    pos: int,
    items: Seq<ClassType>,
    negated: bool,
    start: bool,
) -> Parsed
    decreases s.len() - pos,
{
    if pos < 0 {
        Err(SpecParserError::UnexpectedEndOfInput)
    } else {
        match char_at(s, pos, 0) {
            None => Err(SpecParserError::UnexpectedEndOfInput),
            Some(c) => if c == ']' {
                Ok((SpecAst::Class(items, negated), pos))
            } else if c == '^' && start {
                class_spec(s, pos + 1, items, true, false)
            } else {
                // the member, and the position after it
                let (member, q) = if c == '\\' {
                    match char_at(s, pos, 1) {
                        None => ('\0', -1),
                        Some(e) => (e, pos + 2),
                    }
                } else {
                    (c, pos + 1)
                };
                if q < 0 {
                    Err(SpecParserError::UnexpectedEndOfInput)
                } else {
                    match char_at(s, q, 0) {
                        None => class_spec(s, q, set_insert(items, ClassType::Single(member)), negated, false),
                        Some(n) => if n != '-' || char_at(s, q, 1) is None || char_at(s, q, 1) == Some(']') {
                            class_spec(s, q, set_insert(items, ClassType::Single(member)), negated, false)
                        } else {
                            let n2 = char_at(s, q, 1)->Some_0;
                            let (end, r) = if n2 == '\\' {
                                match char_at(s, q, 2) {
                                    None => ('\0', -1),
                                    Some(e) => (e, q + 3),
                                }
                            } else {
                                (n2, q + 2)
                            };
                            if r < 0 {
                                Err(SpecParserError::UnexpectedEndOfInput)
                            } else if !(n2 == '\\' && end == ']') && member > end {
                                Err(SpecParserError::InvalidRange(member, end))
                            } else {
                                class_spec(s, r, set_insert(items, ClassType::Range(member, end)), negated, false)
                            }
                        },
                    }
                }
            },
        }
    }
}

/// A `?` right after a bounded repetition makes it lazy.
pub open spec fn lazy_suffix(s: Seq<char>, pos: int, offset: int) -> (bool, int) {
    if char_at(s, pos, offset) == Some('?') {
        (true, offset + 1)
    } else {
        (false, offset)
    }
}

/// `{n}`, with the number already read; `offset` is past the `}`.
pub open spec fn bounded_exact_spec(
    s: Seq<char>,
    pos: int,
    node: SpecAst,
    result: Result<u16, ()>,
    offset: int,
) -> Parsed {
    match result {
        Err(_) => Err(SpecParserError::LimitExceeded(window(s, pos, offset))),
        Ok(num) => {
            let (lazy, o) = lazy_suffix(s, pos, offset);
            Ok((SpecAst::BoundedRepetition(Box::new(node), num, Some(num), lazy), pos + o))
        },
    }
}

/// `{n,}`, with the number already read; `offset` is past the `}`.
pub open spec fn bounded_unbounded_spec(
    s: Seq<char>,
    pos: int,
    node: SpecAst,
    result: Result<u16, ()>,
    offset: int,
) -> Parsed {
    match result {
        Err(_) => Err(SpecParserError::LimitExceeded(window(s, pos, offset))),
        Ok(num) => {
            let (lazy, o) = lazy_suffix(s, pos, offset);
            Ok((SpecAst::BoundedRepetition(Box::new(node), num, None, lazy), pos + o))
        },
    }
}

/// `{,m}`; `offset` is at the `,`. Anything malformed leaves `node` as it is
/// and the position at the `{`.
pub open spec fn bounded_comma_start_spec(s: Seq<char>, pos: int, node: SpecAst, offset: int) -> Parsed {
    let o = skip_white_space(s, pos, offset + 1);
    match number_at(s, pos, o) {
        None => Ok((node, pos)),
        Some((Err(_), off)) => {
            let o2 = skip_white_space(s, pos, off);
            if char_at(s, pos, o2) == Some('}') {
                Err(SpecParserError::LimitExceeded(window(s, pos, o2 + 1)))
            } else {
                Ok((node, pos))
            }
        },
        Some((Ok(num), off)) => {
            let o2 = skip_white_space(s, pos, off);
            if char_at(s, pos, o2) != Some('}') {
                Ok((node, pos))
            } else {
                let (lazy, o3) = lazy_suffix(s, pos, o2 + 1);
                Ok((SpecAst::BoundedRepetition(Box::new(node), 0, Some(num), lazy), pos + o3))
            }
        },
    }
}

/// `{n,m}`, `{n}`, `{n,}` or `{,m}` at `pos` (the `{`), white space allowed
/// around the numbers. Anything malformed leaves `node` as it is and the
/// position at the `{`, to be read as a literal; a count over `u16::MAX` and
/// `n > m` are errors.
pub open spec fn bounded_spec(s: Seq<char>, pos: int, node: SpecAst) -> Parsed {
    let offset = skip_white_space(s, pos, 1);
    match char_at(s, pos, offset) {
        None => Ok((node, pos)),
        Some(c1) => if c1 == ',' {
            bounded_comma_start_spec(s, pos, node, offset)
        } else {
            match number_at(s, pos, offset) {
                None => Ok((node, pos)),
                Some((r1, off1)) => {
                    let o = skip_white_space(s, pos, off1);
                    match char_at(s, pos, o) {
                        None => Ok((node, pos)),
                        Some(c2) => if c2 != ',' && c2 != '}' {
                            Ok((node, pos))
                        } else if c2 == '}' {
                            bounded_exact_spec(s, pos, node, r1, o + 1)
                        } else {
                            let o2 = skip_white_space(s, pos, o + 1);
                            if char_at(s, pos, o2) == Some('}') {
                                bounded_unbounded_spec(s, pos, node, r1, o2 + 1)
                            } else {
                                match number_at(s, pos, o2) {
                                    None => Ok((node, pos)),
                                    Some((r3, off3)) => {
                                        let o3 = skip_white_space(s, pos, off3);
                                        match char_at(s, pos, o3) {
                                            None => Ok((node, pos)),
                                            Some(c4) => if c4 != '}' {
                                                Ok((node, pos))
                                            } else {
                                                let o4 = o3 + 1;
                                                match (r1, r3) {
                                                    (Ok(n), Ok(m)) => if n > m {
                                                        Err(
                                                            SpecParserError::MinimumGreaterThanMaximum(
                                                                n,
                                                                m,
                                                            ),
                                                        )
                                                    } else {
                                                        let (lazy, o5) = lazy_suffix(s, pos, o4);
                                                        Ok(
                                                            (
                                                                SpecAst::BoundedRepetition(
                                                                    Box::new(node),
                                                                    n,
                                                                    Some(m),
                                                                    lazy,
                                                                ),
                                                                pos + o5,
                                                            ),
                                                        )
                                                    },
                                                    _ => Err(
                                                        SpecParserError::LimitExceeded(
                                                            window(s, pos, o4),
                                                        ),
                                                    ),
                                                }
                                            },
                                        }
                                    },
                                }
                            }
                        },
                    }
                },
            }
        },
    }
}

/// No concatenation in the tree has an empty side.
pub open spec fn well_shaped(a: SpecAst) -> bool
    decreases a,
{
    match a {
        SpecAst::Concat(x, y) => !(*x is Empty) && !(*y is Empty) && well_shaped(*x) && well_shaped(
            *y,
        ),
        SpecAst::Alternation(x, y) => well_shaped(*x) && well_shaped(*y),
        SpecAst::Star(x) => well_shaped(*x),
        SpecAst::LazyStar(x) => well_shaped(*x),
        SpecAst::Plus(x) => well_shaped(*x),
        SpecAst::LazyPlus(x) => well_shaped(*x),
        SpecAst::Question(x) => well_shaped(*x),
        SpecAst::LazyQuestion(x) => well_shaped(*x),
        SpecAst::BoundedRepetition(x, _, _, _) => well_shaped(*x),
        _ => true,
    }
}

proof fn lemma_class_is_class(s: Seq<char>, pos: int, items: Seq<ClassType>, negated: bool, start: bool)
    ensures
        class_spec(s, pos, items, negated, start) matches Ok((a, _)) ==> a is Class,
    decreases s.len() - pos,
{
    if pos >= 0 {
        match char_at(s, pos, 0) {
            None => {},
            Some(c) => if c == ']' {
            } else if c == '^' && start {
                lemma_class_is_class(s, pos + 1, items, true, false);
            } else {
                let (member, q) = if c == '\\' {
                    match char_at(s, pos, 1) {
                        None => ('\0', -1),
                        Some(e) => (e, pos + 2),
                    }
                } else {
                    (c, pos + 1)
                };
                if q >= 0 {
                    let single = set_insert(items, ClassType::Single(member));
                    lemma_class_is_class(s, q, single, negated, false);
                    match char_at(s, q, 1) {
                        Some(n2) => {
                            let (end, r) = if n2 == '\\' {
                                match char_at(s, q, 2) {
                                    None => ('\0', -1),
                                    Some(e) => (e, q + 3),
                                }
                            } else {
                                (n2, q + 2)
                            };
                            if r >= 0 {
                                lemma_class_is_class(
                                    s,
                                    r,
                                    set_insert(items, ClassType::Range(member, end)),
                                    negated,
                                    false,
                                );
                            }
                        },
                        None => {},
                    }
                }
            },
        }
    }
}

proof fn lemma_bounded_shaped(s: Seq<char>, pos: int, node: SpecAst)
    requires
        well_shaped(node),
    ensures
        bounded_spec(s, pos, node) matches Ok((a, _)) ==> well_shaped(a),
{
    let offset = skip_white_space(s, pos, 1);
    if char_at(s, pos, offset) == Some(',') {
        assert(bounded_comma_start_spec(s, pos, node, offset) matches Ok((a, _)) ==> well_shaped(a));
    }
}

proof fn lemma_quantifiers_shaped(s: Seq<char>, q: int, node: SpecAst)
    requires
        well_shaped(node),
    ensures
        quantifiers_spec(s, q, node) matches Ok((a, _)) ==> well_shaped(a),
    decreases s.len() - q,
{
    if 0 <= q <= s.len() {
        match char_at(s, q, 0) {
            Some('*') => if char_at(s, q, 1) == Some('?') {
                lemma_quantifiers_shaped(s, q + 2, SpecAst::LazyStar(Box::new(node)));
            } else {
                lemma_quantifiers_shaped(s, q + 1, SpecAst::Star(Box::new(node)));
            },
            Some('+') => if char_at(s, q, 1) == Some('?') {
                lemma_quantifiers_shaped(s, q + 2, SpecAst::LazyPlus(Box::new(node)));
            } else {
                lemma_quantifiers_shaped(s, q + 1, SpecAst::Plus(Box::new(node)));
            },
            Some('?') => if char_at(s, q, 1) == Some('?') {
                lemma_quantifiers_shaped(s, q + 2, SpecAst::LazyQuestion(Box::new(node)));
            } else {
                lemma_quantifiers_shaped(s, q + 1, SpecAst::Question(Box::new(node)));
            },
            Some('{') => {
                lemma_bounded_shaped(s, q, node);
                match bounded_spec(s, q, node) {
                    Ok((n2, q2)) => if q < q2 <= s.len() {
                        lemma_quantifiers_shaped(s, q2, n2);
                    },
                    Err(_) => {},
                }
            },
            _ => {},
        }
    }
}

proof fn lemma_alternation_shaped(s: Seq<char>, pos: int)
    ensures
        alternation_spec(s, pos) matches Ok((a, _)) ==> well_shaped(a),
    decreases s.len() - pos, 3int,
{
    if 0 <= pos <= s.len() {
        lemma_concat_shaped(s, pos);
        if let Ok((n1, q)) = concat_spec(s, pos) {
            if char_at(s, q, 0) == Some('|') && pos <= q {
                lemma_alternation_shaped(s, q + 1);
            }
        }
    }
}

proof fn lemma_concat_shaped(s: Seq<char>, pos: int)
    ensures
        concat_spec(s, pos) matches Ok((a, _)) ==> well_shaped(a),
    decreases s.len() - pos, 2int,
{
    if 0 <= pos <= s.len() && !ends_concat(char_at(s, pos, 0)) {
        lemma_repetition_shaped(s, pos);
        if let Ok((n1, q)) = repetition_spec(s, pos) {
            if !(ends_concat(char_at(s, q, 0)) || q <= pos) {
                lemma_concat_shaped(s, q);
            }
        }
    }
}

proof fn lemma_repetition_shaped(s: Seq<char>, pos: int)
    ensures
        repetition_spec(s, pos) matches Ok((a, _)) ==> well_shaped(a),
    decreases s.len() - pos, 1int,
{
    if 0 <= pos <= s.len() {
        lemma_atom_shaped(s, pos);
        if let Ok((node, q)) = atom_spec(s, pos) {
            lemma_quantifiers_shaped(s, q, node);
        }
    }
}

proof fn lemma_atom_shaped(s: Seq<char>, pos: int)
    ensures
        atom_spec(s, pos) matches Ok((a, _)) ==> well_shaped(a),
    decreases s.len() - pos, 0int,
{
    match char_at(s, pos, 0) {
        None => {},
        Some(c) => if c == '[' {
            lemma_class_is_class(s, pos + 1, Seq::empty(), false, true);
        } else if c == '(' {
            lemma_alternation_shaped(s, pos + 1);
        },
    }
}

/// A parsed pattern has no concatenation with an empty side: an empty part,
/// such as `()`, is left out of the concatenation it stands in.
pub proof fn lemma_parse_well_shaped(s: Seq<char>)
    ensures
        parse_spec(s) matches Ok(a) ==> well_shaped(a),
{
    lemma_alternation_shaped(s, 0);
}

proof fn lemma_skip_forward(s: Seq<char>, pos: int, offset: int)
    ensures
        skip_white_space(s, pos, offset) >= offset,
    decreases s.len() - (pos + offset),
{
    if 0 <= pos + offset < s.len() && is_white_space(s[pos + offset]) {
        lemma_skip_forward(s, pos, offset + 1);
    }
}

proof fn lemma_digits_forward(s: Seq<char>, i: int)
    ensures
        digits_end(s, i) >= i,
    decreases s.len() - i,
{
    if 0 <= i < s.len() && is_decimal_digit(s[i]) {
        lemma_digits_forward(s, i + 1);
    }
}

proof fn lemma_number_forward(s: Seq<char>, pos: int, offset: int)
    ensures
        number_at(s, pos, offset) matches Some((_, off)) ==> off >= offset,
{
    lemma_digits_forward(s, pos + offset);
}

/// What a brace at `pos` after `node` may give, in an input of `len`
/// characters.
pub open spec fn brace_outcome(res: Parsed, len: int, pos: int, node: SpecAst) -> bool {
    match res {
        Err(_) => true,
        Ok((a, r)) => (a == node && r == pos) || (pos < r <= len && match a {
            SpecAst::BoundedRepetition(x, n, m, _) => *x == node && (m is Some ==> n <= m->0),
            _ => false,
        }),
    }
}

/// A brace after `node` either is no quantifier (the node as it was, the
/// position still at the `{`), or makes a bounded repetition of `node` whose
/// lower count is at most its upper one, read past the `{` and within the
/// input; or it is an error.
pub proof fn lemma_bounded_moves(s: Seq<char>, pos: int, node: SpecAst)
    requires
        0 <= pos < s.len(),
    ensures
        brace_outcome(bounded_spec(s, pos, node), s.len() as int, pos, node),
{
    let offset = skip_white_space(s, pos, 1);
    lemma_skip_forward(s, pos, 1);
    if char_at(s, pos, offset) == Some(',') {
        let o = skip_white_space(s, pos, offset + 1);
        lemma_skip_forward(s, pos, offset + 1);
        lemma_number_forward(s, pos, o);
        if let Some((_, off)) = number_at(s, pos, o) {
            lemma_skip_forward(s, pos, off);
        }
    } else {
        lemma_number_forward(s, pos, offset);
        if let Some((_, off1)) = number_at(s, pos, offset) {
            let o = skip_white_space(s, pos, off1);
            lemma_skip_forward(s, pos, off1);
            let o2 = skip_white_space(s, pos, o + 1);
            lemma_skip_forward(s, pos, o + 1);
            lemma_number_forward(s, pos, o2);
            if let Some((_, off3)) = number_at(s, pos, o2) {
                lemma_skip_forward(s, pos, off3);
            }
        }
    }
}

/// Nothing at `r` continues the quantifiers of `a`: no `*`, `+` or `?`
/// follows, and a `{` that follows opens no bounded repetition, so it is left
/// for a literal.
pub open spec fn drained(s: Seq<char>, r: int, a: SpecAst) -> bool {
    &&& char_at(s, r, 0) != Some('*')
    &&& char_at(s, r, 0) != Some('+')
    &&& char_at(s, r, 0) != Some('?')
    &&& char_at(s, r, 0) == Some('{') ==> bounded_spec(s, r, a) == Ok::<(SpecAst, int), SpecParserError>(
        (a, r),
    )
}

/// The quantifiers after an atom are read to the last: where they stop,
/// nothing continues them.
pub proof fn lemma_quantifiers_drained(s: Seq<char>, q: int, node: SpecAst)
    requires
        0 <= q <= s.len(),
    ensures
        quantifiers_spec(s, q, node) matches Ok((a, r)) ==> q <= r <= s.len() && drained(s, r, a),
    decreases s.len() - q,
{
    match char_at(s, q, 0) {
        Some('*') => if char_at(s, q, 1) == Some('?') {
            lemma_quantifiers_drained(s, q + 2, SpecAst::LazyStar(Box::new(node)));
        } else {
            lemma_quantifiers_drained(s, q + 1, SpecAst::Star(Box::new(node)));
        },
        Some('+') => if char_at(s, q, 1) == Some('?') {
            lemma_quantifiers_drained(s, q + 2, SpecAst::LazyPlus(Box::new(node)));
        } else {
            lemma_quantifiers_drained(s, q + 1, SpecAst::Plus(Box::new(node)));
        },
        Some('?') => if char_at(s, q, 1) == Some('?') {
            lemma_quantifiers_drained(s, q + 2, SpecAst::LazyQuestion(Box::new(node)));
        } else {
            lemma_quantifiers_drained(s, q + 1, SpecAst::Question(Box::new(node)));
        },
        Some('{') => {
            lemma_bounded_moves(s, q, node);
            match bounded_spec(s, q, node) {
                Ok((n2, q2)) => if q < q2 <= s.len() {
                    lemma_quantifiers_drained(s, q2, n2);
                },
                Err(_) => {},
            }
        },
        _ => {},
    }
}

/// The first position at or after `i` that holds no white space.
pub open spec fn skip_ws(s: Seq<char>, i: int) -> int
    decreases s.len() - i,
{
    if 0 <= i < s.len() && is_white_space(s[i]) {
        skip_ws(s, i + 1)
    } else {
        i
    }
}

/// `count := DIGIT+` at `i`: its value and the position just past it.
pub open spec fn count_at(s: Seq<char>, i: int) -> Option<(nat, int)> {
    if 0 <= i < s.len() && is_decimal_digit(s[i]) {
        Some((digits_value(s, i, digits_end(s, i)), digits_end(s, i)))
    } else {
        None
    }
}

/// The counts that a brace holds.
pub enum Bound {
    /// `{n}`
    Exact(nat),
    /// `{n,}`
    AtLeast(nat),
    /// `{n,m}`
    Between(nat, nat),
    /// `{,m}`
    AtMost(nat),
}

/// What follows a `{` at `i`: `count '}'`, `count ',' '}'`, `count ',' count '}'`
/// or `',' count '}'`, with white space allowed before and after each count
/// and comma. Gives the counts and the position of the closing `}`; `None`
/// when the text does not have that form.
pub open spec fn bound_body(s: Seq<char>, i: int) -> Option<(Bound, int)> {
    let a = skip_ws(s, i);
    if char_at(s, a, 0) == Some(',') {
        match count_at(s, skip_ws(s, a + 1)) {
            None => None,
            Some((m, e)) => if char_at(s, skip_ws(s, e), 0) == Some('}') {
                Some((Bound::AtMost(m), skip_ws(s, e)))
            } else {
                None
            },
        }
    } else {
        match count_at(s, a) {
            None => None,
            Some((n, e)) => {
                let b = skip_ws(s, e);
                if char_at(s, b, 0) == Some('}') {
                    Some((Bound::Exact(n), b))
                } else if char_at(s, b, 0) == Some(',') {
                    let c = skip_ws(s, b + 1);
                    if char_at(s, c, 0) == Some('}') {
                        Some((Bound::AtLeast(n), c))
                    } else {
                        match count_at(s, c) {
                            None => None,
                            Some((m, e2)) => if char_at(s, skip_ws(s, e2), 0) == Some('}') {
                                Some((Bound::Between(n, m), skip_ws(s, e2)))
                            } else {
                                None
                            },
                        }
                    }
                } else {
                    None
                }
            },
        }
    }
}

/// A bounded repetition of `node` with the `{` at `pos`, as the syntax
/// `bound := '{' count ('}' | ',' count? '}')` (and `{,m}`) gives it. A
/// brace that does not have that form is no quantifier: the node stays as it
/// is and the position at the `{`, which is then read as a literal. A count
/// over `u16::MAX` is an error that quotes the brace, and so is `{n,m}` with
/// `n > m`. A `?` after the `}` makes the repetition lazy.
pub open spec fn brace_spec(s: Seq<char>, pos: int, node: SpecAst) -> Parsed {
    match bound_body(s, pos + 1) {
        None => Ok((node, pos)),
        Some((bound, close)) => {
            let text = s.subrange(pos, close + 1);
            let lazy = char_at(s, close + 1, 0) == Some('?');
            let end = if lazy { close + 2 } else { close + 1 };
            let big = u16::MAX as nat;
            match bound {
                Bound::Exact(n) => if n > big {
                    Err(SpecParserError::LimitExceeded(text))
                } else {
                    Ok((SpecAst::BoundedRepetition(Box::new(node), n as u16, Some(n as u16), lazy), end))
                },
                Bound::AtLeast(n) => if n > big {
                    Err(SpecParserError::LimitExceeded(text))
                } else {
                    Ok((SpecAst::BoundedRepetition(Box::new(node), n as u16, None, lazy), end))
                },
                Bound::AtMost(m) => if m > big {
                    Err(SpecParserError::LimitExceeded(text))
                } else {
                    Ok((SpecAst::BoundedRepetition(Box::new(node), 0, Some(m as u16), lazy), end))
                },
                Bound::Between(n, m) => if n > big || m > big {
                    Err(SpecParserError::LimitExceeded(text))
                } else if n > m {
                    Err(SpecParserError::MinimumGreaterThanMaximum(n as u16, m as u16))
                } else {
                    Ok((SpecAst::BoundedRepetition(Box::new(node), n as u16, Some(m as u16), lazy), end))
                },
            }
        },
    }
}

/// The numeric characters of `s` are exactly its ASCII digits.
pub open spec fn numerals_are_digits(s: Seq<char>) -> bool {
    forall|k: int| 0 <= k < s.len() ==> (char_is_numeric(#[trigger] s[k]) <==> is_decimal_digit(s[k]))
}

proof fn lemma_skip_absolute(s: Seq<char>, pos: int, offset: int)
    ensures
        pos + skip_white_space(s, pos, offset) == skip_ws(s, pos + offset),
    decreases s.len() - (pos + offset),
{
    if 0 <= pos + offset < s.len() && is_white_space(s[pos + offset]) {
        lemma_skip_absolute(s, pos, offset + 1);
    }
}

proof fn lemma_number_is_count(s: Seq<char>, pos: int, offset: int)
    requires
        numerals_are_digits(s),
    ensures
        number_at(s, pos, offset) == match count_at(s, pos + offset) {
            None => None,
            Some((v, e)) => Some(
                (if v <= u16::MAX { Ok::<u16, ()>(v as u16) } else { Err(()) }, e - pos),
            ),
        },
{
    let p = pos + offset;
    if 0 <= p < s.len() {
        assert(char_is_numeric(s[p]) <==> is_decimal_digit(s[p]));
    }
}

/// Where every numeric character of the pattern is an ASCII digit (as for
/// any ASCII pattern), the brace parser reads exactly the `bound` syntax,
/// with its fallback to a literal `{`.
pub proof fn lemma_bounded_is_brace(s: Seq<char>, pos: int, node: SpecAst)
    requires
        0 <= pos < s.len(),
    ensures
        numerals_are_digits(s) ==> bounded_spec(s, pos, node) == brace_spec(s, pos, node),
{
    if numerals_are_digits(s) {
        let offset = skip_white_space(s, pos, 1);
        lemma_skip_absolute(s, pos, 1);
        lemma_number_is_count(s, pos, offset);
        if char_at(s, pos, offset) == Some(',') {
            let o = skip_white_space(s, pos, offset + 1);
            lemma_skip_absolute(s, pos, offset + 1);
            lemma_number_is_count(s, pos, o);
            if let Some((_, off)) = number_at(s, pos, o) {
                lemma_skip_absolute(s, pos, off);
            }
        } else if let Some((_, off1)) = number_at(s, pos, offset) {
            let o = skip_white_space(s, pos, off1);
            lemma_skip_absolute(s, pos, off1);
            let o2 = skip_white_space(s, pos, o + 1);
            lemma_skip_absolute(s, pos, o + 1);
            lemma_number_is_count(s, pos, o2);
            if let Some((_, off3)) = number_at(s, pos, o2) {
                lemma_skip_absolute(s, pos, off3);
            }
        }
    }
}

/// A backslash makes whatever follows it a literal, wherever it stands:
/// never an anchor, a quantifier, a group or an alternation.
pub proof fn lemma_escape_in_pattern(s: Seq<char>, pos: int)
    requires
        0 <= pos,
        pos + 1 < s.len(),
        s[pos] == '\\',
    ensures
        atom_spec(s, pos) == Ok::<(SpecAst, int), SpecParserError>((SpecAst::Literal(s[pos + 1]), pos + 2)),
{
}

/// The pattern `\c` is the literal `c`, for every character `c`.
pub proof fn lemma_escape_is_literal(c: char)
    ensures
        parse_spec(seq!['\\', c]) == Ok::<SpecAst, SpecParserError>(SpecAst::Literal(c)),
{
    let s = seq!['\\', c];
    lemma_escape_in_pattern(s, 0);
    assert(quantifiers_spec(s, 2, SpecAst::Literal(c)) == Ok::<(SpecAst, int), SpecParserError>(
        (SpecAst::Literal(c), 2),
    ));
    assert(repetition_spec(s, 0) == Ok::<(SpecAst, int), SpecParserError>((SpecAst::Literal(c), 2)));
    assert(concat_spec(s, 0) == Ok::<(SpecAst, int), SpecParserError>((SpecAst::Literal(c), 2)));
    assert(alternation_spec(s, 0) == Ok::<(SpecAst, int), SpecParserError>((SpecAst::Literal(c), 2)));
}

/// A pattern of one character that is not one of `. [ ] ( ) * + ? | \ ^ $ {`
/// is that character as a literal; `.` is any character, `^` the start and
/// `$` the end.
pub proof fn lemma_single_character(c: char)
    ensures
        !(c == '.' || c == '[' || c == ']' || c == '(' || c == ')' || c == '*' || c == '+' || c
            == '?' || c == '|' || c == '\\' || c == '^' || c == '$' || c == '{') ==> parse_spec(
            seq![c],
        ) == Ok::<SpecAst, SpecParserError>(SpecAst::Literal(c)),
        parse_spec(seq!['.']) == Ok::<SpecAst, SpecParserError>(SpecAst::Any),
        parse_spec(seq!['^']) == Ok::<SpecAst, SpecParserError>(SpecAst::Anchor(AnchorKind::Start)),
        parse_spec(seq!['$']) == Ok::<SpecAst, SpecParserError>(SpecAst::Anchor(AnchorKind::End)),
{
    lemma_one_char(c);
    lemma_one_char('.');
    lemma_one_char('^');
    lemma_one_char('$');
}

proof fn lemma_one_char(c: char)
    ensures
        match atom_spec(seq![c], 0) {
            Ok((a, q)) => q == 1 && !(c == '*' || c == '+' || c == '?' || c == '{') ==> parse_spec(
                seq![c],
            ) == Ok::<SpecAst, SpecParserError>(a),
            Err(_) => true,
        },
{
    let s = seq![c];
    if let Ok((a, q)) = atom_spec(s, 0) {
        if q == 1 && !(c == '*' || c == '+' || c == '?' || c == '{') {
            assert(quantifiers_spec(s, 1, a) == Ok::<(SpecAst, int), SpecParserError>((a, 1)));
            assert(repetition_spec(s, 0) == Ok::<(SpecAst, int), SpecParserError>((a, 1)));
            assert(concat_spec(s, 0) == Ok::<(SpecAst, int), SpecParserError>((a, 1)));
            assert(alternation_spec(s, 0) == Ok::<(SpecAst, int), SpecParserError>((a, 1)));
        }
    }
}

/// A character with no meaning of its own in a pattern, outside a class.
pub open spec fn ordinary(c: char) -> bool {
    !(c == '.' || c == '[' || c == ']' || c == '(' || c == ')' || c == '*' || c == '+' || c == '?'
        || c == '|' || c == '\\' || c == '^' || c == '$' || c == '{' || c == '-')
}

proof fn lemma_whole_repetition(s: Seq<char>, a: SpecAst)
    requires
        s.len() > 0,
        !ends_concat(char_at(s, 0, 0)),
        repetition_spec(s, 0) == Ok::<(SpecAst, int), SpecParserError>((a, s.len() as int)),
    ensures
        parse_spec(s) == Ok::<SpecAst, SpecParserError>(a),
{
    assert(concat_spec(s, 0) == Ok::<(SpecAst, int), SpecParserError>((a, s.len() as int)));
    assert(alternation_spec(s, 0) == Ok::<(SpecAst, int), SpecParserError>((a, s.len() as int)));
}

/// A literal followed by quantifiers that reach the end of the pattern.
proof fn lemma_literal_then(s: Seq<char>, a: SpecAst)
    requires
        s.len() > 0,
        ordinary(s[0]),
        quantifiers_spec(s, 1, SpecAst::Literal(s[0])) == Ok::<(SpecAst, int), SpecParserError>((a, s.len() as int)),
    ensures
        parse_spec(s) == Ok::<SpecAst, SpecParserError>(a),
{
    assert(atom_spec(s, 0) == Ok::<(SpecAst, int), SpecParserError>((SpecAst::Literal(s[0]), 1)));
    assert(repetition_spec(s, 0) == Ok::<(SpecAst, int), SpecParserError>((a, s.len() as int)));
    lemma_whole_repetition(s, a);
}

proof fn lemma_star_pattern(c: char)
    requires
        ordinary(c),
    ensures
        parse_spec(seq![c, '*']) == Ok::<SpecAst, SpecParserError>(SpecAst::Star(Box::new(SpecAst::Literal(c)))),
        parse_spec(seq![c, '*', '?']) == Ok::<SpecAst, SpecParserError>(SpecAst::LazyStar(Box::new(SpecAst::Literal(c)))),
{
    let g = SpecAst::Star(Box::new(SpecAst::Literal(c)));
    let l = SpecAst::LazyStar(Box::new(SpecAst::Literal(c)));
    let s1 = seq![c, '*'];
    assert(s1[0] == c && s1[1] == '*');
    assert(quantifiers_spec(s1, 2, g) == Ok::<(SpecAst, int), SpecParserError>((g, 2)));
    lemma_literal_then(s1, g);
    let s2 = seq![c, '*', '?'];
    assert(s2[0] == c && s2[1] == '*' && s2[2] == '?');
    assert(quantifiers_spec(s2, 3, l) == Ok::<(SpecAst, int), SpecParserError>((l, 3)));
    lemma_literal_then(s2, l);
}

proof fn lemma_plus_pattern(c: char)
    requires
        ordinary(c),
    ensures
        parse_spec(seq![c, '+']) == Ok::<SpecAst, SpecParserError>(SpecAst::Plus(Box::new(SpecAst::Literal(c)))),
        parse_spec(seq![c, '+', '?']) == Ok::<SpecAst, SpecParserError>(SpecAst::LazyPlus(Box::new(SpecAst::Literal(c)))),
{
    let g = SpecAst::Plus(Box::new(SpecAst::Literal(c)));
    let l = SpecAst::LazyPlus(Box::new(SpecAst::Literal(c)));
    let s1 = seq![c, '+'];
    assert(s1[0] == c && s1[1] == '+');
    assert(quantifiers_spec(s1, 2, g) == Ok::<(SpecAst, int), SpecParserError>((g, 2)));
    lemma_literal_then(s1, g);
    let s2 = seq![c, '+', '?'];
    assert(s2[0] == c && s2[1] == '+' && s2[2] == '?');
    assert(quantifiers_spec(s2, 3, l) == Ok::<(SpecAst, int), SpecParserError>((l, 3)));
    lemma_literal_then(s2, l);
}

proof fn lemma_question_pattern(c: char)
    requires
        ordinary(c),
    ensures
        parse_spec(seq![c, '?']) == Ok::<SpecAst, SpecParserError>(SpecAst::Question(Box::new(SpecAst::Literal(c)))),
        parse_spec(seq![c, '?', '?']) == Ok::<SpecAst, SpecParserError>(SpecAst::LazyQuestion(Box::new(SpecAst::Literal(c)))),
{
    let g = SpecAst::Question(Box::new(SpecAst::Literal(c)));
    let l = SpecAst::LazyQuestion(Box::new(SpecAst::Literal(c)));
    let s1 = seq![c, '?'];
    assert(s1[0] == c && s1[1] == '?');
    assert(quantifiers_spec(s1, 2, g) == Ok::<(SpecAst, int), SpecParserError>((g, 2)));
    lemma_literal_then(s1, g);
    let s2 = seq![c, '?', '?'];
    assert(s2[0] == c && s2[1] == '?' && s2[2] == '?');
    assert(quantifiers_spec(s2, 3, l) == Ok::<(SpecAst, int), SpecParserError>((l, 3)));
    lemma_literal_then(s2, l);
}

/// Each quantifier binds to the atom before it, and a `?` after it makes it
/// lazy: `c*`, `c+`, `c?`, `c*?`, `c+?` and `c??` for an ordinary `c`.
pub proof fn lemma_quantifier_patterns(c: char)
    requires
        ordinary(c),
    ensures
        parse_spec(seq![c, '*']) == Ok::<SpecAst, SpecParserError>(SpecAst::Star(Box::new(SpecAst::Literal(c)))),
        parse_spec(seq![c, '+']) == Ok::<SpecAst, SpecParserError>(SpecAst::Plus(Box::new(SpecAst::Literal(c)))),
        parse_spec(seq![c, '?']) == Ok::<SpecAst, SpecParserError>(SpecAst::Question(Box::new(SpecAst::Literal(c)))),
        parse_spec(seq![c, '*', '?']) == Ok::<SpecAst, SpecParserError>(SpecAst::LazyStar(Box::new(SpecAst::Literal(c)))),
        parse_spec(seq![c, '+', '?']) == Ok::<SpecAst, SpecParserError>(SpecAst::LazyPlus(Box::new(SpecAst::Literal(c)))),
        parse_spec(seq![c, '?', '?']) == Ok::<SpecAst, SpecParserError>(
            SpecAst::LazyQuestion(Box::new(SpecAst::Literal(c))),
        ),
{
    lemma_star_pattern(c);
    lemma_plus_pattern(c);
    lemma_question_pattern(c);
}

proof fn lemma_concat_pattern(c: char, d: char)
    requires
        ordinary(c),
        ordinary(d),
    ensures
        parse_spec(seq![c, d]) == Ok::<SpecAst, SpecParserError>(
            SpecAst::Concat(Box::new(SpecAst::Literal(c)), Box::new(SpecAst::Literal(d))),
        ),
{
    let s = seq![c, d];
    assert(s[0] == c && s[1] == d);
    assert(quantifiers_spec(s, 1, SpecAst::Literal(c)) == Ok::<(SpecAst, int), SpecParserError>((SpecAst::Literal(c), 1)));
    assert(repetition_spec(s, 0) == Ok::<(SpecAst, int), SpecParserError>((SpecAst::Literal(c), 1)));
    assert(quantifiers_spec(s, 2, SpecAst::Literal(d)) == Ok::<(SpecAst, int), SpecParserError>((SpecAst::Literal(d), 2)));
    assert(repetition_spec(s, 1) == Ok::<(SpecAst, int), SpecParserError>((SpecAst::Literal(d), 2)));
    assert(concat_spec(s, 2) == Ok::<(SpecAst, int), SpecParserError>((SpecAst::Empty, 2)));
    assert(concat_spec(s, 1) == Ok::<(SpecAst, int), SpecParserError>((SpecAst::Literal(d), 2)));
    let cat = SpecAst::Concat(Box::new(SpecAst::Literal(c)), Box::new(SpecAst::Literal(d)));
    assert(concat_spec(s, 0) == Ok::<(SpecAst, int), SpecParserError>((cat, 2)));
    assert(alternation_spec(s, 0) == Ok::<(SpecAst, int), SpecParserError>((cat, 2)));
}

proof fn lemma_alternation_pattern(c: char, d: char)
    requires
        ordinary(c),
        ordinary(d),
    ensures
        parse_spec(seq![c, '|', d]) == Ok::<SpecAst, SpecParserError>(
            SpecAst::Alternation(Box::new(SpecAst::Literal(c)), Box::new(SpecAst::Literal(d))),
        ),
{
    let s = seq![c, '|', d];
    assert(s[0] == c && s[1] == '|' && s[2] == d);
    assert(quantifiers_spec(s, 1, SpecAst::Literal(c)) == Ok::<(SpecAst, int), SpecParserError>((SpecAst::Literal(c), 1)));
    assert(repetition_spec(s, 0) == Ok::<(SpecAst, int), SpecParserError>((SpecAst::Literal(c), 1)));
    assert(concat_spec(s, 0) == Ok::<(SpecAst, int), SpecParserError>((SpecAst::Literal(c), 1)));
    assert(quantifiers_spec(s, 3, SpecAst::Literal(d)) == Ok::<(SpecAst, int), SpecParserError>((SpecAst::Literal(d), 3)));
    assert(repetition_spec(s, 2) == Ok::<(SpecAst, int), SpecParserError>((SpecAst::Literal(d), 3)));
    assert(concat_spec(s, 2) == Ok::<(SpecAst, int), SpecParserError>((SpecAst::Literal(d), 3)));
    assert(alternation_spec(s, 2) == Ok::<(SpecAst, int), SpecParserError>((SpecAst::Literal(d), 3)));
    let alt = SpecAst::Alternation(Box::new(SpecAst::Literal(c)), Box::new(SpecAst::Literal(d)));
    assert(alternation_spec(s, 0) == Ok::<(SpecAst, int), SpecParserError>((alt, 3)));
}

proof fn lemma_group_pattern(c: char)
    requires
        ordinary(c),
    ensures
        parse_spec(seq!['(', c, ')']) == Ok::<SpecAst, SpecParserError>(SpecAst::Literal(c)),
{
    let s = seq!['(', c, ')'];
    assert(s[0] == '(' && s[1] == c && s[2] == ')');
    assert(quantifiers_spec(s, 2, SpecAst::Literal(c)) == Ok::<(SpecAst, int), SpecParserError>((SpecAst::Literal(c), 2)));
    assert(repetition_spec(s, 1) == Ok::<(SpecAst, int), SpecParserError>((SpecAst::Literal(c), 2)));
    assert(concat_spec(s, 1) == Ok::<(SpecAst, int), SpecParserError>((SpecAst::Literal(c), 2)));
    assert(alternation_spec(s, 1) == Ok::<(SpecAst, int), SpecParserError>((SpecAst::Literal(c), 2)));
    assert(atom_spec(s, 0) == Ok::<(SpecAst, int), SpecParserError>((SpecAst::Literal(c), 3)));
    assert(quantifiers_spec(s, 3, SpecAst::Literal(c)) == Ok::<(SpecAst, int), SpecParserError>((SpecAst::Literal(c), 3)));
    lemma_whole_repetition(s, SpecAst::Literal(c));
}

/// Groups, concatenation and alternation of ordinary characters: `(c)` is
/// `c`, `cd` is `c` then `d`, and `c|d` is either.
pub proof fn lemma_structure_patterns(c: char, d: char)
    requires
        ordinary(c),
        ordinary(d),
    ensures
        parse_spec(seq![c, d]) == Ok::<SpecAst, SpecParserError>(
            SpecAst::Concat(Box::new(SpecAst::Literal(c)), Box::new(SpecAst::Literal(d))),
        ),
        parse_spec(seq![c, '|', d]) == Ok::<SpecAst, SpecParserError>(
            SpecAst::Alternation(Box::new(SpecAst::Literal(c)), Box::new(SpecAst::Literal(d))),
        ),
        parse_spec(seq!['(', c, ')']) == Ok::<SpecAst, SpecParserError>(SpecAst::Literal(c)),
{
    lemma_concat_pattern(c, d);
    lemma_alternation_pattern(c, d);
    lemma_group_pattern(c);
}

proof fn lemma_whole_class(s: Seq<char>, a: SpecAst)
    requires
        s.len() > 1,
        s[0] == '[',
        s[s.len() - 1] == ']',
        class_spec(s, 1, Seq::empty(), false, true) == Ok::<(SpecAst, int), SpecParserError>((a, s.len() - 1)),
    ensures
        parse_spec(s) == Ok::<SpecAst, SpecParserError>(a),
{
    assert(atom_spec(s, 0) == Ok::<(SpecAst, int), SpecParserError>((a, s.len() as int)));
    assert(quantifiers_spec(s, s.len() as int, a) == Ok::<(SpecAst, int), SpecParserError>((a, s.len() as int)));
    lemma_whole_repetition(s, a);
}

/// Classes of ordinary characters: `[c]` holds `c`, `[^c]` is its negation,
/// and `[c-d]` is the range from `c` to `d` when `c <= d` and an
/// `InvalidRange` error otherwise.
pub proof fn lemma_class_patterns(c: char, d: char)
    requires
        ordinary(c),
        ordinary(d),
    ensures
        parse_spec(seq!['[', c, ']']) == Ok::<SpecAst, SpecParserError>(SpecAst::Class(seq![ClassType::Single(c)], false)),
        parse_spec(seq!['[', '^', c, ']']) == Ok::<SpecAst, SpecParserError>(SpecAst::Class(seq![ClassType::Single(c)], true)),
        c <= d ==> parse_spec(seq!['[', c, '-', d, ']']) == Ok::<SpecAst, SpecParserError>(
            SpecAst::Class(seq![ClassType::Range(c, d)], false),
        ),
        c > d ==> parse_spec(seq!['[', c, '-', d, ']']) == Err::<SpecAst, SpecParserError>(
            SpecParserError::InvalidRange(c, d),
        ),
{
    let e = Seq::<ClassType>::empty();
    assert(set_insert(e, ClassType::Single(c)) =~= seq![ClassType::Single(c)]);
    assert(set_insert(e, ClassType::Range(c, d)) =~= seq![ClassType::Range(c, d)]);
    let s1 = seq!['[', c, ']'];
    assert(s1[0] == '[' && s1[1] == c && s1[2] == ']');
    assert(class_spec(s1, 2, seq![ClassType::Single(c)], false, false) == Ok::<(SpecAst, int), SpecParserError>((SpecAst::Class(seq![ClassType::Single(c)], false), 2)));
    assert(class_spec(s1, 1, e, false, true) == Ok::<(SpecAst, int), SpecParserError>((SpecAst::Class(seq![ClassType::Single(c)], false), 2)));
    lemma_whole_class(s1, SpecAst::Class(seq![ClassType::Single(c)], false));
    let s2 = seq!['[', '^', c, ']'];
    assert(s2[0] == '[' && s2[1] == '^' && s2[2] == c && s2[3] == ']');
    assert(class_spec(s2, 3, seq![ClassType::Single(c)], true, false) == Ok::<(SpecAst, int), SpecParserError>((SpecAst::Class(seq![ClassType::Single(c)], true), 3)));
    assert(class_spec(s2, 2, e, true, false) == Ok::<(SpecAst, int), SpecParserError>((SpecAst::Class(seq![ClassType::Single(c)], true), 3)));
    assert(class_spec(s2, 1, e, false, true) == Ok::<(SpecAst, int), SpecParserError>((SpecAst::Class(seq![ClassType::Single(c)], true), 3)));
    lemma_whole_class(s2, SpecAst::Class(seq![ClassType::Single(c)], true));
    let s3 = seq!['[', c, '-', d, ']'];
    assert(s3[0] == '[' && s3[1] == c && s3[2] == '-' && s3[3] == d && s3[4] == ']');
    if c <= d {
        assert(class_spec(s3, 4, seq![ClassType::Range(c, d)], false, false) == Ok::<(SpecAst, int), SpecParserError>((SpecAst::Class(seq![ClassType::Range(c, d)], false), 4)));
        assert(class_spec(s3, 1, e, false, true) == Ok::<(SpecAst, int), SpecParserError>((SpecAst::Class(seq![ClassType::Range(c, d)], false), 4)));
        lemma_whole_class(s3, SpecAst::Class(seq![ClassType::Range(c, d)], false));
    } else {
        assert(class_spec(s3, 1, e, false, true) == Err::<(SpecAst, int), SpecParserError>(SpecParserError::InvalidRange(c, d)));
        assert(atom_spec(s3, 0) == Err::<(SpecAst, int), SpecParserError>(SpecParserError::InvalidRange(c, d)));
        assert(repetition_spec(s3, 0) == Err::<(SpecAst, int), SpecParserError>(SpecParserError::InvalidRange(c, d)));
        assert(concat_spec(s3, 0) == Err::<(SpecAst, int), SpecParserError>(SpecParserError::InvalidRange(c, d)));
        assert(alternation_spec(s3, 0) == Err::<(SpecAst, int), SpecParserError>(SpecParserError::InvalidRange(c, d)));
    }
}

/// Inside a class, a backslash makes whatever follows it a member as it is:
/// `[\c]` holds exactly `c`, for every character `c`.
pub proof fn lemma_class_escape(c: char)
    ensures
        parse_spec(seq!['[', '\\', c, ']']) == Ok::<SpecAst, SpecParserError>(SpecAst::Class(seq![ClassType::Single(c)], false)),
{
    let s = seq!['[', '\\', c, ']'];
    let e = Seq::<ClassType>::empty();
    assert(s[0] == '[' && s[1] == '\\' && s[2] == c && s[3] == ']');
    assert(set_insert(e, ClassType::Single(c)) =~= seq![ClassType::Single(c)]);
    let a = SpecAst::Class(seq![ClassType::Single(c)], false);
    assert(class_spec(s, 3, seq![ClassType::Single(c)], false, false) == Ok::<(SpecAst, int), SpecParserError>((a, 3)));
    assert(class_spec(s, 1, e, false, true) == Ok::<(SpecAst, int), SpecParserError>((a, 3)));
    lemma_whole_class(s, a);
}

/// An empty side of an alternation is the empty pattern: `c|` is `c` or
/// nothing, and `|c` nothing or `c`.
pub proof fn lemma_empty_alternatives(c: char)
    requires
        ordinary(c),
    ensures
        parse_spec(seq![c, '|']) == Ok::<SpecAst, SpecParserError>(
            SpecAst::Alternation(Box::new(SpecAst::Literal(c)), Box::new(SpecAst::Empty)),
        ),
        parse_spec(seq!['|', c]) == Ok::<SpecAst, SpecParserError>(
            SpecAst::Alternation(Box::new(SpecAst::Empty), Box::new(SpecAst::Literal(c))),
        ),
{
    let s = seq![c, '|'];
    assert(s[0] == c && s[1] == '|');
    assert(quantifiers_spec(s, 1, SpecAst::Literal(c)) == Ok::<(SpecAst, int), SpecParserError>((SpecAst::Literal(c), 1)));
    assert(repetition_spec(s, 0) == Ok::<(SpecAst, int), SpecParserError>((SpecAst::Literal(c), 1)));
    assert(concat_spec(s, 0) == Ok::<(SpecAst, int), SpecParserError>((SpecAst::Literal(c), 1)));
    assert(concat_spec(s, 2) == Ok::<(SpecAst, int), SpecParserError>((SpecAst::Empty, 2)));
    assert(alternation_spec(s, 2) == Ok::<(SpecAst, int), SpecParserError>((SpecAst::Empty, 2)));
    let a1 = SpecAst::Alternation(Box::new(SpecAst::Literal(c)), Box::new(SpecAst::Empty));
    assert(alternation_spec(s, 0) == Ok::<(SpecAst, int), SpecParserError>((a1, 2)));
    let r = seq!['|', c];
    assert(r[0] == '|' && r[1] == c);
    assert(concat_spec(r, 0) == Ok::<(SpecAst, int), SpecParserError>((SpecAst::Empty, 0)));
    assert(quantifiers_spec(r, 2, SpecAst::Literal(c)) == Ok::<(SpecAst, int), SpecParserError>((SpecAst::Literal(c), 2)));
    assert(repetition_spec(r, 1) == Ok::<(SpecAst, int), SpecParserError>((SpecAst::Literal(c), 2)));
    assert(concat_spec(r, 1) == Ok::<(SpecAst, int), SpecParserError>((SpecAst::Literal(c), 2)));
    assert(alternation_spec(r, 1) == Ok::<(SpecAst, int), SpecParserError>((SpecAst::Literal(c), 2)));
    let a2 = SpecAst::Alternation(Box::new(SpecAst::Empty), Box::new(SpecAst::Literal(c)));
    assert(alternation_spec(r, 0) == Ok::<(SpecAst, int), SpecParserError>((a2, 2)));
}

} // verus!
