use rregex::regex::Regex;

fn find_in(pattern: &str, input: &str) -> Option<usize> {
    Regex::compile(pattern).unwrap().find(input).unwrap()
}

fn accepts(pattern: &str, input: &str) -> bool {
    Regex::compile(pattern).unwrap().full_match(input).unwrap()
}

const PATTERNS: [&str; 12] = [
    "a|ab", "ab|a", "a*", "a*?", "(a|b)*c", "a+b", "a?a", "a{2,3}", "[a-c]+d?", ".*b", "^a|b$", "a|",
];

const INPUTS: [&str; 10] = ["", "a", "b", "ab", "aab", "abc", "aaab", "cab", "abd", "ba"];

#[test]
fn what_find_reports_is_a_match_of_a_prefix() {
    for p in PATTERNS {
        for w in INPUTS {
            if let Some(n) = find_in(p, w) {
                let prefix: String = w.chars().take(n).collect();
                assert!(n <= w.chars().count());
                // the prefix is in the language, though `$` now sees its end
                if !p.contains('$') {
                    assert!(accepts(p, &prefix), "{} on {}: {}", p, w, n);
                }
            }
        }
    }
}

#[test]
fn find_reports_the_whole_input_only_for_members() {
    for p in PATTERNS {
        for w in INPUTS {
            if find_in(p, w) == Some(w.chars().count()) {
                assert!(accepts(p, w), "{} on {}", p, w);
            }
        }
    }
}

#[test]
fn no_match_from_find_means_no_member_prefix() {
    for p in PATTERNS {
        for w in INPUTS {
            if find_in(p, w).is_none() {
                assert!(!accepts(p, w), "{} on {}", p, w);
                assert!(!accepts(p, ""), "{} on the empty prefix", p);
            }
        }
    }
}

#[test]
fn priority_can_hide_a_longer_member() {
    // the converse of the law above fails: the left branch wins
    assert_eq!(find_in("a|ab", "ab"), Some(1));
    assert!(accepts("a|ab", "ab"));
}

#[test]
fn laziness_keeps_the_language() {
    for w in INPUTS {
        assert_eq!(accepts("a*?", w), accepts("a*", w));
        assert_eq!(accepts("a+?", w), accepts("a+", w));
        assert_eq!(accepts("a??", w), accepts("a?", w));
        assert_eq!(accepts("(a|b)*?c", w), accepts("(a|b)*c", w));
    }
}

#[test]
fn lazy_and_greedy_differ_in_what_find_prefers() {
    assert_eq!(find_in("a*", "aaa"), Some(3));
    assert_eq!(find_in("a*?", "aaa"), Some(0));
    assert_eq!(find_in("a+?", "aaa"), Some(1));
    assert_eq!(find_in("a??", "a"), Some(0));
}

#[test]
fn full_match_is_membership_in_the_language() {
    let cases = [
        ("abc|c*d", "abc", true),
        ("abc|c*d", "cccd", true),
        ("abc|c*d", "d", true),
        ("abc|c*d", "acb", false),
        ("(a|b)*abb", "babb", true),
        ("(a|b)*abb", "abab", false),
        ("a.c", "a\nc", true),
        ("x*y*z*", "", true),
        ("x*y*z*", "zyx", false),
    ];
    for (p, w, expected) in cases {
        assert_eq!(accepts(p, w), expected, "{} on {}", p, w);
    }
}

#[test]
fn a_thread_keeps_the_place_it_arrived_in() {
    // After the first `b`, the thread that skipped the lazy `b??` and the one
    // that took it both arrive; the second `b` state is listed where it
    // arrived, below the accepting exit, so the match found ends at 1.
    assert_eq!(find_in("(b??b)*", "bb"), Some(1));
    assert!(accepts("(b??b)*", "bb"));
}
