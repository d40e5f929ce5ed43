use regex_engine::engine::codegen::get_code;
use regex_engine::engine::parser::{parse, AST};
use regex_engine::engine::Instruction;
use regex_engine::engine::Instruction::{Char, Jump, Match, Split};

fn code(expr: &str) -> Vec<Instruction> {
    let ast = parse(expr).unwrap();
    get_code(&ast).unwrap()
}

fn check_well_formed(program: &[Instruction]) {
    assert!(!program.is_empty());
    assert_eq!(program[program.len() - 1], Match);
    for inst in program {
        match inst {
            Jump(t) => assert!(*t < program.len()),
            Split(t1, t2) => {
                assert!(*t1 < program.len());
                assert!(*t2 < program.len());
            }
            _ => {}
        }
    }
}

#[test]
fn literal_is_one_char_instruction() {
    assert_eq!(code("a"), vec![Char('a'), Match]);
}

#[test]
fn concatenation_is_code_in_order() {
    assert_eq!(code("abc"), vec![Char('a'), Char('b'), Char('c'), Match]);
}

#[test]
fn empty_concatenation_is_no_code() {
    assert_eq!(get_code(&AST::Concat(vec![])), Ok(vec![Match]));
    assert_eq!(code("()"), vec![Match]);
}

#[test]
fn alternation_splits_and_jumps_over() {
    assert_eq!(code("a|b"), vec![Split(1, 3), Char('a'), Jump(4), Char('b'), Match]);
    assert_eq!(
        code("ab|cd"),
        vec![Split(1, 4), Char('a'), Char('b'), Jump(6), Char('c'), Char('d'), Match]
    );
}

#[test]
fn zero_or_more_loops_back() {
    assert_eq!(code("a*"), vec![Split(1, 3), Char('a'), Jump(0), Match]);
    assert_eq!(code("ba*"), vec![Char('b'), Split(2, 4), Char('a'), Jump(1), Match]);
}

#[test]
fn one_or_more_splits_after_the_body() {
    assert_eq!(code("a+"), vec![Char('a'), Split(0, 2), Match]);
    assert_eq!(code("ba+"), vec![Char('b'), Char('a'), Split(1, 3), Match]);
}

#[test]
fn zero_or_one_splits_past_the_body() {
    assert_eq!(code("a?"), vec![Split(1, 2), Char('a'), Match]);
    assert_eq!(code("a?b"), vec![Split(1, 2), Char('a'), Char('b'), Match]);
}

#[test]
fn nested_star_is_compiled_as_written() {
    assert_eq!(
        code("a**"),
        vec![Split(1, 5), Split(2, 4), Char('a'), Jump(1), Jump(0), Match]
    );
}

#[test]
fn nested_constructs() {
    assert_eq!(
        code("(a|b)*c"),
        vec![
            Split(1, 6),
            Split(2, 4),
            Char('a'),
            Jump(5),
            Char('b'),
            Jump(0),
            Char('c'),
            Match
        ]
    );
    assert_eq!(
        code("a|b|c"),
        vec![
            Split(1, 3),
            Char('a'),
            Jump(7),
            Split(4, 6),
            Char('b'),
            Jump(7),
            Char('c'),
            Match
        ]
    );
}

#[test]
fn generated_programs_are_well_formed() {
    let patterns = [
        "a", "abc", "a|b", "a*", "a+", "a?", "a**", "(a|b)*c", "(a*)*", "((a|b)+c?)*d", "()",
        "a|", "|", "(a?)*b", "a|b|c|d", "(ab|cd)+(ef)?g*",
    ];
    for expr in patterns {
        check_well_formed(&code(expr));
    }
}

#[test]
fn compiling_twice_gives_the_same_program() {
    let patterns = ["a", "a|b", "(a|b)*c", "((a|b)+c?)*d", "a**"];
    for expr in patterns {
        let ast = parse(expr).unwrap();
        assert_eq!(get_code(&ast), get_code(&ast));
        assert_eq!(code(expr), code(expr));
    }
}

#[test]
fn deep_tree_compiles() {
    let mut ast = AST::Literal('a');
    for _ in 0..200 {
        ast = AST::ZeroOrOne(Box::new(ast));
    }
    let program = get_code(&ast).unwrap();
    assert_eq!(program.len(), 202);
    assert_eq!(program[0], Split(1, 201));
    assert_eq!(program[199], Split(200, 201));
    assert_eq!(program[200], Char('a'));
    check_well_formed(&program);
}
