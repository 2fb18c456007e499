use scanner::parse::{parse, Instruction, Instructions};
use scanner::scan::tokenize;

fn check(input: &str, expected: Vec<Instruction>) {
    assert_eq!(parse(tokenize(input)), expected);
}

#[test]
fn parse_empty() {
    check("", vec![]);
}

#[test]
fn instructions_exhausted() {
    let mut instructions = Instructions::new(tokenize(""));
    assert!(instructions.next().is_none());
    assert!(instructions.next().is_none());
}
