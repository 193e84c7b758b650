use rregex::machine::class::{Class, ClassInstruction};
use rregex::machine::position::Position;
use rregex::parser::ast::AnchorKind;
use rregex::parser::ast::{ClassSet, ClassType};
use rregex::regex::Regex;

fn accepts(pattern: &str, input: &str) -> bool {
    Regex::compile(pattern).unwrap().full_match(input).unwrap()
}

#[test]
fn class_examples_from_the_reference() {
    assert!(accepts("[abc]", "a"));
    assert!(!accepts("[abc]", "d"));
    assert!(accepts("[a-z]", "m"));
    assert!(!accepts("[a-z]", "M"));
    assert!(accepts("[^a-z]", "M"));
    assert!(!accepts("[^a-z]", "m"));
    assert!(!accepts("[ab-df]", "e"));
    assert!(accepts("[ab-df]", "c"));
    assert!(accepts("[a^bc]", "^"));
    assert!(accepts("[-az]", "-"));
    assert!(accepts("[a-d-z]", "-"));
    assert!(!accepts("[a-d-z]", "e"));
    assert!(accepts("[a-z]+", "cab"));
    assert!(accepts("[abc]?d", "d"));
}

#[test]
fn the_order_of_class_items_does_not_matter() {
    for c in ['a', 'b', 'c', 'd', 'z', '-', '^'] {
        let s = c.to_string();
        assert_eq!(accepts("[abc]", &s), accepts("[cba]", &s));
        assert_eq!(accepts("[a-cz]", &s), accepts("[za-c]", &s));
        assert_eq!(accepts("[aab]", &s), accepts("[ba]", &s));
    }
}

#[test]
fn a_negated_class_is_the_complement() {
    for c in ['a', 'm', 'z', 'A', '0', '\n', ' ', 'é'] {
        let s = c.to_string();
        assert_eq!(accepts("[^a-z]", &s), !accepts("[a-z]", &s));
        assert_eq!(accepts("[^]", &s), !accepts("[]", &s));
    }
    assert!(accepts("[^]", "x"));
    assert!(!accepts("[]", "x"));
}

#[test]
fn class_instructions_test_membership() {
    let class = Class::new(
        vec![ClassInstruction::Range('a', 'f'), ClassInstruction::Single('z')],
        false,
        7,
    );
    assert!(class.match_c('a'));
    assert!(class.match_c('f'));
    assert!(class.match_c('z'));
    assert!(!class.match_c('g'));
    assert_eq!(class.exit(), 7);
    let negated = Class::new(vec![ClassInstruction::Single('z')], true, 3);
    assert!(negated.match_c('a'));
    assert!(!negated.match_c('z'));
}

#[test]
fn a_class_set_holds_each_item_once() {
    let mut set = ClassSet::new();
    set.push(ClassType::Single('a'));
    set.push(ClassType::Range('b', 'd'));
    set.push(ClassType::Single('a'));
    set.push(ClassType::Range('b', 'd'));
    assert_eq!(set.len(), 2);
    assert_eq!(set.as_slice(), &[ClassType::Single('a'), ClassType::Range('b', 'd')]);
    assert_eq!(set[1], ClassType::Range('b', 'd'));
    assert!(set.contains(&ClassType::Single('a')));
    set.clear();
    assert!(set.is_empty());
}

#[test]
fn repeated_class_members_are_kept_once() {
    assert_eq!(
        rregex::parser::parse("[aab]").unwrap(),
        rregex::parser::ast::Ast::Class(
            ClassSet::from_vec(vec![ClassType::Single('a'), ClassType::Single('b')]),
            false
        )
    );
}

#[test]
fn class_items_convert_to_instructions() {
    assert_eq!(
        ClassInstruction::from(&ClassType::Range('a', 'z')),
        ClassInstruction::Range('a', 'z')
    );
    assert_eq!(ClassInstruction::from(&ClassType::Single('q')), ClassInstruction::Single('q'));
}

#[test]
fn anchors_convert_to_positions() {
    assert_eq!(Position::from(&AnchorKind::Start), Position::Start);
    assert_eq!(Position::from(&AnchorKind::End), Position::End);
}

#[test]
fn an_escaped_range_end_must_come_after_the_start() {
    assert!(Regex::compile("[z-\\a]").is_err());
    assert!(accepts("[a-\\z]", "m"));
    assert!(accepts("[\\]-\\^]", "^"));
}
