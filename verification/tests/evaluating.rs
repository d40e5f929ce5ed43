use regex_engine::engine::codegen::get_code;
use regex_engine::engine::evaluator::{eval, EvalError};
use regex_engine::engine::parser::parse;
use regex_engine::engine::Instruction;
use regex_engine::engine::Instruction::{Char, Jump, Match, Split};

fn chars(s: &str) -> Vec<char> {
    s.chars().collect()
}

fn run(program: &[Instruction], line: &str, is_depth: bool) -> Result<bool, EvalError> {
    eval(program, &chars(line), is_depth)
}

fn both(program: &[Instruction], line: &str) -> Result<bool, EvalError> {
    let depth = run(program, line, true);
    let width = run(program, line, false);
    assert_eq!(depth, width);
    depth
}

#[test]
fn match_alone_accepts_everything() {
    assert_eq!(both(&[Match], ""), Ok(true));
    assert_eq!(both(&[Match], "abc"), Ok(true));
}

#[test]
fn char_consumes_an_equal_character() {
    let program = [Char('a'), Char('b'), Match];
    assert_eq!(both(&program, "ab"), Ok(true));
    assert_eq!(both(&program, "abc"), Ok(true));
    assert_eq!(both(&program, "a"), Ok(false));
    assert_eq!(both(&program, "ac"), Ok(false));
    assert_eq!(both(&program, ""), Ok(false));
}

#[test]
fn jump_transfers_control() {
    let program = [Jump(2), Char('x'), Char('a'), Match];
    assert_eq!(both(&program, "a"), Ok(true));
    assert_eq!(both(&program, "xa"), Ok(false));
}

#[test]
fn split_tries_both_targets() {
    let program = [Split(1, 3), Char('a'), Jump(4), Char('b'), Match];
    assert_eq!(both(&program, "a"), Ok(true));
    assert_eq!(both(&program, "b"), Ok(true));
    assert_eq!(both(&program, "c"), Ok(false));
}

#[test]
fn cycles_without_input_end() {
    // a jump to itself
    assert_eq!(both(&[Jump(0), Match], "a"), Ok(false));
    // two splits that lead to each other and to a character that is not there
    let program = [Split(1, 2), Split(0, 2), Char('a'), Match];
    assert_eq!(both(&program, "b"), Ok(false));
    assert_eq!(both(&program, "a"), Ok(true));
}

#[test]
fn long_path_without_input_is_followed_to_its_end() {
    // every instruction but the last is a jump to the next
    let mut program: Vec<Instruction> = (1..50).map(Jump).collect();
    program.push(Match);
    assert_eq!(both(&program, ""), Ok(true));
}

#[test]
fn empty_program_has_no_first_instruction() {
    assert_eq!(both(&[], ""), Err(EvalError::InvalidPC));
    assert_eq!(both(&[], "a"), Err(EvalError::InvalidPC));
}

#[test]
fn running_off_the_end_is_an_error() {
    let program = [Char('a')];
    assert_eq!(both(&program, "a"), Err(EvalError::InvalidPC));
    assert_eq!(both(&program, "b"), Ok(false));
    assert_eq!(both(&program, ""), Ok(false));
}

#[test]
fn target_outside_the_program_is_an_error() {
    assert_eq!(both(&[Jump(7), Match], ""), Err(EvalError::InvalidPC));
    assert_eq!(both(&[Split(5, 1), Match], ""), Err(EvalError::InvalidPC));
    // a bad target that no thread comes to does no harm
    assert_eq!(both(&[Jump(2), Jump(9), Match], ""), Ok(true));
}

#[test]
fn strategies_differ_only_where_a_thread_leaves_the_program() {
    // backtracking finds the match behind the first target and never
    // looks at the second; in step, both threads are advanced
    let program = [Split(1, 2), Match, Jump(9)];
    assert_eq!(run(&program, "", true), Ok(true));
    assert_eq!(run(&program, "", false), Err(EvalError::InvalidPC));
    // the other way round the stray thread is met first by both
    let program = [Split(2, 1), Match, Jump(9)];
    assert_eq!(run(&program, "", true), Err(EvalError::InvalidPC));
    assert_eq!(run(&program, "", false), Err(EvalError::InvalidPC));
}

#[test]
fn strategies_agree_on_compiled_patterns() {
    let patterns = [
        "a", "abc", "a|b", "a*", "a+", "a?", "a**", "(a|b)*c", "(a*)*", "((a|b)+c?)*d", "()",
        "a|", "|", "(a?)*b", "a|b|c|d", "(ab|cd)+(ef)?g*", "(a*)*b", "(a|aa)+b", "(a+)+b",
        "(a*b*)*c", "((a?)?)?b", "(|a)*b",
    ];
    let lines = [
        "", "a", "b", "c", "d", "ab", "ba", "abc", "aab", "aaa", "aaab", "abab", "abcd", "cdab",
        "abcdefg", "aaaaaaaaaaaaaaaa", "aaaaaaaaaaaaaaab", "cdcdefggg", "xyz",
    ];
    for expr in patterns {
        let program = get_code(&parse(expr).unwrap()).unwrap();
        for line in lines {
            let depth = run(&program, line, true);
            let width = run(&program, line, false);
            assert!(depth.is_ok());
            assert_eq!(depth, width);
        }
    }
}

#[test]
fn verdicts_of_compiled_patterns() {
    let cases = [
        ("(a|b)*c", "ababc", true),
        ("(a|b)*c", "abab", false),
        ("(ab|cd)+(ef)?g*", "abcdefgg", true),
        ("(ab|cd)+(ef)?g*", "ef", false),
        ("(a|aa)+b", "aaaaab", true),
        ("(a|aa)+b", "aaaaac", false),
        ("a|b|c|d", "d", true),
        ("a|b|c|d", "e", false),
        ("()", "", true),
        ("|", "x", true),
        ("(|a)*b", "aab", true),
        ("(|a)*b", "aac", false),
    ];
    for (expr, line, expected) in cases {
        let program = get_code(&parse(expr).unwrap()).unwrap();
        assert_eq!(run(&program, line, true), Ok(expected));
        assert_eq!(run(&program, line, false), Ok(expected));
    }
}

#[test]
fn width_first_is_not_slowed_by_nested_repetition() {
    let program = get_code(&parse("(a*)*(a*)*(a*)*b").unwrap()).unwrap();
    let line: String = "a".repeat(2000);
    assert_eq!(run(&program, &line, false), Ok(false));
}
