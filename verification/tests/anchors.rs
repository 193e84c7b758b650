use rregex::regex::Regex;

fn find_in(pattern: &str, input: &str) -> Option<usize> {
    Regex::compile(pattern).unwrap().find(input).unwrap()
}

fn accepts(pattern: &str, input: &str) -> bool {
    Regex::compile(pattern).unwrap().full_match(input).unwrap()
}

#[test]
fn end_anchor_needs_the_end_of_input() {
    assert!(accepts("ab$", "ab"));
    assert_eq!(find_in("ab$", "ab"), Some(2));
    assert_eq!(find_in("ab$", "abc"), None);
    assert!(!accepts("ab$", "abc"));
}

#[test]
fn start_anchor_holds_at_position_zero() {
    assert_eq!(find_in("^ab", "ab"), Some(2));
    assert_eq!(find_in("^ab", "xab"), None);
    assert!(accepts("^ab$", "ab"));
    assert_eq!(find_in("^ab$", "abx"), None);
}

#[test]
fn a_start_anchor_after_a_character_is_dead() {
    for input in ["", "a", "b", "ab", "a^b"] {
        assert_eq!(find_in("a^b", input), None);
        assert!(!accepts("a^b", input));
    }
}

#[test]
fn an_end_anchor_before_a_character_is_dead() {
    for input in ["", "a", "b", "ab", "a$b"] {
        assert_eq!(find_in("a$b", input), None);
        assert!(!accepts("a$b", input));
    }
}

#[test]
fn an_end_anchor_only_constrains_its_own_branch() {
    assert!(accepts("foo$|bar", "foo"));
    assert!(accepts("foo$|bar", "bar"));
    assert_eq!(find_in("foo$|bar", "foobar"), None);
    assert_eq!(find_in("foo$|bar", "foox"), None);
    assert_eq!(find_in("foo$|bar", "barx"), Some(3));
}

#[test]
fn repeating_an_anchor_is_redundant() {
    assert!(accepts("^^a", "a"));
    assert!(accepts("a$$", "a"));
    assert_eq!(find_in("^*a", "a"), Some(1));
    assert_eq!(find_in("^?a", "a"), Some(1));
    assert_eq!(find_in("^+a", "a"), Some(1));
}

#[test]
fn an_anchored_group_under_plus_matches_one_trailing_character() {
    assert!(accepts("(a$)+", "a"));
    assert!(!accepts("(a$)+", "aa"));
}

#[test]
fn anchors_consume_nothing() {
    assert!(accepts("^$", ""));
    assert!(!accepts("^$", "a"));
    assert!(accepts("(ab$)?c", "c"));
    assert!(!accepts("(ab$)?c", "abc"));
}

#[test]
fn anchors_at_the_ends_change_nothing_for_whole_inputs() {
    for w in ["", "a", "ab", "abb", "ba"] {
        assert_eq!(accepts("^ab*", w), accepts("ab*", w));
        assert_eq!(accepts("ab*$", w), accepts("ab*", w));
        assert_eq!(find_in("^ab*", w), find_in("ab*", w));
    }
}
