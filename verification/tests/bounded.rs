use rregex::machine::Machine;
use rregex::parser::parse;
use rregex::regex::{error::RegexError, Regex};

fn find_in(pattern: &str, input: &str) -> Option<usize> {
    Regex::compile(pattern).unwrap().find(input).unwrap()
}

fn accepts(pattern: &str, input: &str) -> bool {
    Regex::compile(pattern).unwrap().full_match(input).unwrap()
}

fn machine_of(pattern: &str) -> Machine {
    Machine::new(parse(pattern).unwrap())
}

fn same_machine(a: &str, b: &str) -> bool {
    let x = machine_of(a);
    let y = machine_of(b);
    x.start() == y.start() && x.program().as_slice() == y.program().as_slice()
}

#[test]
fn exact_count() {
    assert!(accepts("a{3}", "aaa"));
    assert!(!accepts("a{3}", "aa"));
    assert!(!accepts("a{3}", "aaaa"));
    assert_eq!(find_in("a{3}", "aaaa"), Some(3));
}

#[test]
fn counted_range() {
    assert!(!accepts("a{2,4}", "a"));
    assert!(accepts("a{2,4}", "aa"));
    assert!(accepts("a{2,4}", "aaa"));
    assert!(accepts("a{2,4}", "aaaa"));
    assert!(!accepts("a{2,4}", "aaaaa"));
}

#[test]
fn at_least_n() {
    assert!(!accepts("a{2,}", "a"));
    assert!(accepts("a{2,}", "aa"));
    assert!(accepts("a{2,}", "aaa"));
    assert!(accepts("a{2,}", "aaaaaaaa"));
}

#[test]
fn at_most_m() {
    assert!(accepts("a{,2}", ""));
    assert!(accepts("a{,2}", "a"));
    assert!(accepts("a{,2}", "aa"));
    assert!(!accepts("a{,2}", "aaa"));
}

#[test]
fn zero_repetitions_is_the_empty_string() {
    assert!(accepts("a{0}", ""));
    assert!(!accepts("a{0}", "a"));
    assert!(accepts("ba{0}c", "bc"));
}

#[test]
fn two_to_three_is_exactly_two_strings() {
    for input in ["", "a", "aa", "aaa", "aaaa", "ab", "aab"] {
        assert_eq!(accepts("a{2,3}", input), input == "aa" || input == "aaa");
    }
}

#[test]
fn a_count_binds_to_one_atom() {
    assert!(accepts("ab{2,3}", "abb"));
    assert!(accepts("ab{2,3}", "abbb"));
    assert!(!accepts("ab{2,3}", "abab"));
    assert!(accepts("(ab){2}", "abab"));
}

#[test]
fn lazy_counts_prefer_fewer() {
    assert_eq!(find_in("a{2,3}", "aaaa"), Some(3));
    assert_eq!(find_in("a{2,3}?", "aaaa"), Some(2));
    assert_eq!(find_in("a{2,}?", "aaaa"), Some(2));
    assert!(accepts("a{2,3}?", "aaa"));
}

#[test]
fn malformed_braces_are_literal_characters() {
    assert!(accepts("a{2,1x}", "a{2,1x}"));
    assert!(accepts("a{", "a{"));
    assert!(accepts("a{x}", "a{x}"));
}

#[test]
fn shorthands_compile_to_the_same_program() {
    assert!(same_machine("a{0,}", "a*"));
    assert!(same_machine("a{0,}?", "a*?"));
    assert!(same_machine("a{0,1}", "a?"));
    assert!(same_machine("a{0,1}?", "a??"));
    assert!(same_machine("(ab){1}", "(ab)"));
    assert!(same_machine("a{0}", ""));
    assert!(!same_machine("a{1,}", "a+"));
}

#[test]
fn a_minimum_above_the_maximum_is_refused() {
    match Regex::compile("a{5,3}") {
        Err(e) => assert_eq!(
            e,
            RegexError::ParseError(
                "Invalid quantifier range: minimum 5 is greater than maximum 3".to_string()
            )
        ),
        Ok(_) => panic!("a{{5,3}} compiled"),
    }
}

#[test]
fn empty_groups_leave_no_empty_concat_side() {
    use_ast_checks();
}

fn use_ast_checks() {
    use_parse("()b", rregex::parser::ast::Ast::Literal('b'));
    use_parse("a()", rregex::parser::ast::Ast::Literal('a'));
    use_parse("()", rregex::parser::ast::Ast::Empty);
    use_parse("()()", rregex::parser::ast::Ast::Empty);
    use_parse(
        "a()b",
        rregex::parser::ast::Ast::Concat(
            Box::new(rregex::parser::ast::Ast::Literal('a')),
            Box::new(rregex::parser::ast::Ast::Literal('b')),
        ),
    );
    assert!(accepts("()b", "b"));
    assert!(accepts("a()b", "ab"));
}

fn use_parse(pattern: &str, expected: rregex::parser::ast::Ast) {
    assert_eq!(parse(pattern).unwrap(), expected);
}

fn literals(text: &str) -> rregex::parser::ast::Ast {
    use_literals(&text.chars().collect::<Vec<char>>())
}

fn use_literals(cs: &[char]) -> rregex::parser::ast::Ast {
    if cs.len() == 1 {
        rregex::parser::ast::Ast::Literal(cs[0])
    } else {
        rregex::parser::ast::Ast::Concat(
            Box::new(rregex::parser::ast::Ast::Literal(cs[0])),
            Box::new(use_literals(&cs[1..])),
        )
    }
}

#[test]
fn a_brace_without_counts_is_a_literal() {
    use_parse("a{}", literals("a{}"));
    use_parse("a{,}", literals("a{,}"));
    use_parse("a{ }", literals("a{ }"));
    use_parse("a{2,1x}", literals("a{2,1x}"));
    use_parse("a{x}", literals("a{x}"));
    assert!(accepts("a{}", "a{}"));
}
