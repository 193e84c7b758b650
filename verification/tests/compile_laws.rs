use rregex::machine::program::ValidInstruction;
use rregex::machine::Machine;
use rregex::parser::ast::Ast;
use rregex::parser::parse;

fn machine(pattern: &str) -> Machine {
    Machine::new(parse(pattern).unwrap())
}

fn code(pattern: &str) -> Vec<ValidInstruction> {
    machine(pattern).program().to_vec()
}

#[test]
fn every_program_has_exactly_one_match_state() {
    for p in ["", "a", "ab|c", "(a|b)*c", "a+?b??", "a{2,3}", "[a-c]x", "^a$", "a|"] {
        let count = code(p).iter().filter(|i| **i == ValidInstruction::Match).count();
        assert_eq!(count, 1, "{}", p);
    }
}

#[test]
fn program_length_follows_the_tree() {
    // Empty 1; Literal 2; Concat adds; Alternation +2; Star +2; Plus and Question +1
    assert_eq!(code("").len(), 1);
    assert_eq!(code("a").len(), 2);
    assert_eq!(code("ab").len(), 4);
    assert_eq!(code("a|b").len(), 6);
    assert_eq!(code("a*").len(), 4);
    assert_eq!(code("a+").len(), 3);
    assert_eq!(code("a?").len(), 3);
}

fn swapped_at(greedy: &str, lazy: &str) -> Vec<usize> {
    let g = code(greedy);
    let l = code(lazy);
    assert_eq!(g.len(), l.len());
    assert_eq!(machine(greedy).start(), machine(lazy).start());
    let mut at = Vec::new();
    for k in 0..g.len() {
        if g[k] != l[k] {
            match (&g[k], &l[k]) {
                (ValidInstruction::Split(x, y), ValidInstruction::Split(u, v)) => {
                    assert_eq!((x, y), (v, u));
                }
                _ => panic!("{} and {} differ at {}", greedy, lazy, k),
            }
            at.push(k);
        }
    }
    at
}

#[test]
fn lazy_quantifiers_swap_one_split() {
    assert_eq!(swapped_at("a*", "a*?").len(), 1);
    assert_eq!(swapped_at("a+", "a+?").len(), 1);
    assert_eq!(swapped_at("a?", "a??").len(), 1);
    assert_eq!(swapped_at("(ab|c)*d", "(ab|c)*?d").len(), 1);
}

#[test]
fn quantifiers_are_read_to_the_last() {
    // a `{` that opens no bounded repetition is left for a literal
    assert_eq!(
        parse("a{3a}").unwrap(),
        parse("a\\{3a}").unwrap()
    );
    assert_eq!(
        parse("a*+?").unwrap(),
        Ast::LazyPlus(Box::new(Ast::Star(Box::new(Ast::Literal('a')))))
    );
}
