use rregex::machine::{program_size, Machine};
use rregex::parser::{parse, ParserError};
use rregex::regex::{error::RegexError, Regex};

fn refusal_of(pattern: &str) -> RegexError {
    match Regex::compile(pattern) {
        Err(e) => e,
        Ok(_) => panic!("`{}` compiled", pattern),
    }
}

fn message(text: &str) -> RegexError {
    RegexError::ParseError(text.to_string())
}

#[test]
fn unexpected_token_message() {
    assert_eq!(refusal_of(")"), message("Unexpected token ')' in regex pattern"));
    assert_eq!(refusal_of("a)"), message("Unexpected token ')' in regex pattern"));
    assert_eq!(refusal_of("*a"), message("Unexpected token '*' in regex pattern"));
    assert_eq!(refusal_of("(a"), message("Unexpected token '\0' in regex pattern"));
}

#[test]
fn unexpected_end_message() {
    assert_eq!(refusal_of("a\\"), message("Unexpected end of input in regex pattern"));
    assert_eq!(refusal_of("[ab"), message("Unexpected end of input in regex pattern"));
}

#[test]
fn invalid_range_message() {
    assert_eq!(refusal_of("[c-a]"), message("Invalid range 'c' - 'a' in regex pattern"));
}

#[test]
fn limit_exceeded_message() {
    assert_eq!(
        refusal_of("a{65536}"),
        message("{65536} Quantifier exceeds the supported limit")
    );
    assert_eq!(
        refusal_of("a{1,70000}"),
        message("{1,70000} Quantifier exceeds the supported limit")
    );
}

#[test]
fn minimum_greater_than_maximum_message() {
    assert_eq!(
        refusal_of("a{100,12}"),
        message("Invalid quantifier range: minimum 100 is greater than maximum 12")
    );
    assert_eq!(
        refusal_of("a{65535,0}"),
        message("Invalid quantifier range: minimum 65535 is greater than maximum 0")
    );
}

#[test]
fn each_parser_error_maps_to_its_message() {
    assert_eq!(
        RegexError::from(ParserError::UnexpectedToken('x')),
        message("Unexpected token 'x' in regex pattern")
    );
    assert_eq!(
        RegexError::from(ParserError::UnexpectedEndOfInput),
        message("Unexpected end of input in regex pattern")
    );
    assert_eq!(
        RegexError::from(ParserError::InvalidRange('z', 'a')),
        message("Invalid range 'z' - 'a' in regex pattern")
    );
    assert_eq!(
        RegexError::from(ParserError::LimitExceeded("{99999}".to_string())),
        message("{99999} Quantifier exceeds the supported limit")
    );
    assert_eq!(
        RegexError::from(ParserError::MinimumGreaterThanMaximum(7, 3)),
        message("Invalid quantifier range: minimum 7 is greater than maximum 3")
    );
    assert_eq!(
        RegexError::from(ParserError::MinimumGreaterThanMaximum(10, 9)),
        message("Invalid quantifier range: minimum 10 is greater than maximum 9")
    );
}

#[test]
fn program_size_is_the_length_of_the_compiled_program() {
    for pattern in [
        "", "a", "ab", "a|b", "a*", "a+", "a?", "(a|b)*c", "[abc]", ".", "^a$", "a{3}", "a{2,4}",
        "a{2,}", "a{,3}", "a{0}", "(ab){2,3}?", "a{3}{2}",
    ] {
        let ast = parse(pattern).unwrap();
        let size = program_size(&ast).unwrap();
        let machine = Machine::new(parse(pattern).unwrap());
        assert_eq!(size, machine.program().len(), "pattern {}", pattern);
        assert!(machine.start() < size);
    }
}

#[test]
fn program_size_of_nested_counts() {
    let ast = parse("a{3}").unwrap();
    assert_eq!(program_size(&ast), Some(6));
    let ast = parse("a{0}").unwrap();
    assert_eq!(program_size(&ast), Some(1));
    let ast = parse("a{2,}").unwrap();
    assert_eq!(program_size(&ast), Some(8));
    let ast = parse("a{65535}{65535}{65535}{65535}{65535}").unwrap();
    assert_eq!(program_size(&ast), None);
}

fn parse_then_convert(pattern: &str) -> Result<usize, RegexError> {
    let ast = parse(pattern)?;
    Ok(program_size(&ast).unwrap())
}

#[test]
fn parse_errors_convert_with_question_mark() {
    assert_eq!(
        parse_then_convert("(a"),
        Err(message("Unexpected token '\0' in regex pattern"))
    );
    assert_eq!(parse_then_convert("ab"), Ok(4));
    let converted: RegexError = ParserError::InvalidRange('q', 'p').into();
    assert_eq!(converted, message("Invalid range 'q' - 'p' in regex pattern"));
}

#[test]
fn an_escaped_range_end_is_still_checked() {
    assert_eq!(parse("[z-\\a]"), Err(ParserError::InvalidRange('z', 'a')));
    assert_eq!(parse("[c-\\-]"), Err(ParserError::InvalidRange('c', '-')));
    assert!(parse("[a-\\z]").is_ok());
    assert!(parse("[\\]-\\^]").is_ok());
}
