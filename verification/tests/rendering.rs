use regex_engine::engine::codegen::CodeGenError;
use regex_engine::engine::display::listing;
use regex_engine::engine::evaluator::EvalError;
use regex_engine::engine::parser::{ParseError, AST};
use regex_engine::engine::{compile, EngineError, Instruction};

#[test]
fn instruction_text() {
    assert_eq!(Instruction::Char('x').to_string(), "char x");
    assert_eq!(Instruction::Char(' ').to_string(), "char  ");
    assert_eq!(Instruction::Match.to_string(), "match");
    assert_eq!(Instruction::Jump(0).to_string(), "Jump 0000");
    assert_eq!(Instruction::Jump(7).to_string(), "Jump 0007");
    assert_eq!(Instruction::Jump(1234).to_string(), "Jump 1234");
    assert_eq!(Instruction::Jump(12345).to_string(), "Jump 12345");
    assert_eq!(Instruction::Split(1, 5).to_string(), "split 0001, 0005");
    assert_eq!(Instruction::Split(10, 100).to_string(), "split 0010, 0100");
    assert_eq!(Instruction::Split(9999, 10000).to_string(), "split 9999, 10000");
}

#[test]
fn largest_address_is_rendered_in_full() {
    assert_eq!(
        Instruction::Jump(usize::MAX).to_string(),
        format!("Jump {}", usize::MAX)
    );
}

#[test]
fn parse_error_text() {
    assert_eq!(
        ParseError::InvalidEscape(3, 'n').to_string(),
        "ParseError: invalid escape: pos = 3, char = 'n'"
    );
    assert_eq!(
        ParseError::InvalidRightParen(12).to_string(),
        "ParseError: invalid right parenthesis: pos = 12"
    );
    assert_eq!(
        ParseError::NoPrev(0).to_string(),
        "ParseError: no previous expression: pos = 0"
    );
    assert_eq!(ParseError::NoRightParen.to_string(), "ParseError: no right parenthesis");
    assert_eq!(ParseError::Empty.to_string(), "ParseError: empty expression");
}

#[test]
fn code_gen_error_text() {
    assert_eq!(CodeGenError::PCOverFlow.to_string(), "CodeGenError: PCOverFlow");
    assert_eq!(CodeGenError::FailStar.to_string(), "CodeGenError: FailStar");
    assert_eq!(CodeGenError::FailOr.to_string(), "CodeGenError: FailOr");
    assert_eq!(CodeGenError::FailQuestion.to_string(), "CodeGenError: FailQuestion");
}

#[test]
fn eval_error_text() {
    assert_eq!(EvalError::PCOverFlow.to_string(), "EvalError: PCOverFlow");
    assert_eq!(EvalError::SPOverFlow.to_string(), "EvalError: SPOverFlow");
    assert_eq!(EvalError::InvalidPC.to_string(), "EvalError: InvalidPC");
}

#[test]
fn engine_error_text_is_that_of_its_stage() {
    assert_eq!(
        EngineError::Parse(ParseError::Empty).to_string(),
        "ParseError: empty expression"
    );
    assert_eq!(
        EngineError::CodeGen(CodeGenError::PCOverFlow).to_string(),
        "CodeGenError: PCOverFlow"
    );
    assert_eq!(EngineError::Eval(EvalError::InvalidPC).to_string(), "EvalError: InvalidPC");
}

#[test]
fn listing_numbers_the_instructions() {
    let (ast, code) = compile("a|b").unwrap();
    assert_eq!(
        ast,
        AST::Alternation(Box::new(AST::Literal('a')), Box::new(AST::Literal('b')))
    );
    assert_eq!(
        listing(&code),
        vec![
            "0000: split 0001, 0003",
            "0001: char a",
            "0002: Jump 0004",
            "0003: char b",
            "0004: match"
        ]
    );
}

#[test]
fn listing_of_no_instructions_is_empty() {
    assert_eq!(listing(&[]), Vec::<String>::new());
}

#[test]
fn compile_reports_the_stage_that_failed() {
    assert_eq!(compile(""), Err(EngineError::Parse(ParseError::Empty)));
    assert_eq!(compile("a)"), Err(EngineError::Parse(ParseError::InvalidRightParen(1))));
}

// Traces a listing by hand: follows the text of the instructions, not the
// instructions themselves.
fn trace(lines: &[String], line: &[char], pc: usize, sp: usize, seen: &mut Vec<(usize, usize)>) -> bool {
    if seen.contains(&(pc, sp)) {
        return false;
    }
    seen.push((pc, sp));
    let text = &lines[pc];
    let (addr, inst) = text.split_at(6);
    assert_eq!(addr, format!("{:04}: ", pc));
    if inst == "match" {
        true
    } else if let Some(rest) = inst.strip_prefix("char ") {
        let c = rest.chars().next().unwrap();
        sp < line.len() && line[sp] == c && trace(lines, line, pc + 1, sp + 1, seen)
    } else if let Some(rest) = inst.strip_prefix("Jump ") {
        trace(lines, line, rest.parse().unwrap(), sp, seen)
    } else if let Some(rest) = inst.strip_prefix("split ") {
        let (t1, t2) = rest.split_once(", ").unwrap();
        trace(lines, line, t1.parse().unwrap(), sp, seen)
            || trace(lines, line, t2.parse().unwrap(), sp, seen)
    } else {
        panic!("unknown instruction text: {}", inst)
    }
}

#[test]
fn tracing_the_listing_gives_the_verdict_of_the_evaluator() {
    let patterns = ["a", "a|b", "(a|b)*c", "a**b", "(ab|cd)+(ef)?g*", "a?b", "(a*)*"];
    let inputs = ["", "a", "b", "ab", "abc", "aab", "cdefg", "abab", "c"];
    for expr in patterns {
        let (_, code) = compile(expr).unwrap();
        let lines = listing(&code);
        for input in inputs {
            let chars: Vec<char> = input.chars().collect();
            let traced = trace(&lines, &chars, 0, 0, &mut Vec::new());
            let depth = regex_engine::engine::evaluator::eval(&code, &chars, true);
            let width = regex_engine::engine::evaluator::eval(&code, &chars, false);
            assert_eq!(depth, Ok(traced));
            assert_eq!(width, Ok(traced));
        }
    }
}
