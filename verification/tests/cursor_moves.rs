use rregex::cursor::Cursor;
use rregex::parser::ast::Ast;
use rregex::parser::bounded_repetition::BoundedRepetition;
use rregex::parser::parse;

#[test]
fn rewind_undoes_moves() {
    let mut cursor = Cursor::new("abc");
    assert_eq!(cursor.next(), Some('a'));
    assert_eq!(cursor.next(), Some('b'));
    assert_eq!(cursor.offset(), 2);
    cursor.rewind(2);
    assert_eq!(cursor.offset(), 0);
    assert_eq!(cursor.peek(), Some('a'));
    cursor.rewind(5);
    assert_eq!(cursor.offset(), 0);
}

#[test]
fn eat_consumes_only_the_expected_character() {
    let mut cursor = Cursor::new("ab");
    assert!(!cursor.eat('b'));
    assert_eq!(cursor.offset(), 0);
    assert!(cursor.eat('a'));
    assert!(cursor.eat('b'));
    assert!(cursor.is_eof());
    assert!(!cursor.eat('b'));
}

#[test]
fn peeking_reads_ahead_without_moving() {
    let cursor = Cursor::new("a b");
    assert_eq!(cursor.peek_at(2), Some('b'));
    assert_eq!(cursor.peek_at(3), None);
    assert_eq!(cursor.offset_whitespace_at(1), 2);
    assert_eq!(cursor.string_offset(2), "a ".to_string());
    assert_eq!(cursor.string_offset(10), "a b".to_string());
    assert_eq!(cursor.offset(), 0);
}

#[test]
fn numbers_are_read_in_decimal_with_overflow_detection() {
    let cursor = Cursor::new("65535}");
    let n = cursor.peek_number().unwrap();
    assert!(!n.is_err());
    assert_eq!(n.unwrap(), 65535);
    assert_eq!(n.offset, 5);
    let cursor = Cursor::new("65536");
    let n = cursor.peek_number().unwrap();
    assert!(n.is_err());
    assert_eq!(n.offset, 5);
}

#[test]
fn moving_to_an_offset() {
    let mut cursor = Cursor::new("abcd");
    cursor.move_to(3);
    assert_eq!(cursor.offset(), 3);
    assert_eq!(cursor.peek(), Some('d'));
    cursor.move_to(1);
    assert!(cursor.is_eof());
    let mut cursor = Cursor::new("12x");
    let n = cursor.next_number().unwrap();
    assert_eq!(n.unwrap(), 12);
    assert_eq!(cursor.peek(), Some('x'));
}

#[test]
fn unicode_white_space_is_skipped_inside_braces() {
    let expected = Ast::BoundedRepetition(BoundedRepetition {
        ast: Box::new(Ast::Literal('a')),
        n: 2,
        m: Some(3),
        lazy: false,
    });
    assert!(parse("a{\u{3000}2\t,\u{2028}3\u{a0}}").unwrap() == expected);
    // a character outside the White_Space list is not skipped
    assert!(parse("a{\u{200b}2}").unwrap() != expected);
}

#[test]
fn an_ascii_letter_is_no_number() {
    assert!(Cursor::new("x1").peek_number().is_none());
    assert!(Cursor::new("}").peek_number_at(0).is_none());
    assert!(Cursor::new(",9").next_number().is_none());
}
