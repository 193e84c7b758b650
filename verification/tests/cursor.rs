use rregex::cursor::Cursor;


#[test]
fn test_peek_number() {
    let input = "1234";
    let cursor = Cursor::new(input);
    let result = cursor.peek_number().unwrap();
    assert_eq!(result.unwrap(), 1234);
    assert_eq!(result.offset, 4);
}

#[test]
fn test_peek_number_overflow() {
    let input = "655351a";
    let cursor = Cursor::new(input);
    let result = cursor.peek_number();
    assert!(result.is_some());
    let overflow_result = result.unwrap();
    assert!(overflow_result.is_err());
    let offset = overflow_result.offset;
    let a = cursor.peek_at(offset).unwrap();
    assert_eq!(a, 'a')
}

#[test]
fn test_peek_number_with_char() {
    let input = "12a34";
    let cursor = Cursor::new(input);
    let result = cursor.peek_number().unwrap();
    assert_eq!(result.unwrap(), 12);
    assert_eq!(result.offset, 2);
    let a = cursor.peek_at(result.offset).unwrap();
    assert_eq!(a, 'a')
}

#[test]
fn test_peek_number_no_number() {
    let input = "a12a34";
    let cursor = Cursor::new(input);
    assert!(cursor.peek_number().is_none())
}

#[test]
fn test_next_number() {
    let input = "1234";
    let mut cursor = Cursor::new(input);
    let num = cursor.next_number().unwrap().unwrap();
    assert_eq!(num, 1234);
    assert!(cursor.next().is_none());
}

#[test]
fn test_next_number_with_char() {
    let input = "12a34";
    let mut cursor = Cursor::new(input);
    let num = cursor.next_number().unwrap().unwrap();
    assert_eq!(num, 12);
    let a = cursor.next().unwrap();
    assert_eq!(a, 'a')
}

#[test]
fn test_next_number_no_number() {
    let input = "a12a34";
    let mut cursor = Cursor::new(input);
    assert!(cursor.next_number().is_none());
    let a = cursor.next().unwrap();
    assert_eq!(a, 'a')
}

#[test]
fn test_next_number_number_after_advance() {
    let input = "a12a34";
    let mut cursor = Cursor::new(input);
    cursor.next();
    let result = cursor.peek_number().unwrap();
    assert_eq!(result.unwrap(), 12);
    assert_eq!(result.offset, 2);
}
