use regex_engine::engine::do_matching;
use regex_engine::engine::parser::ParseError;
use regex_engine::engine::EngineError;

fn both(expr: &str, line: &str) -> Result<bool, EngineError> {
    let depth = do_matching(expr, line, true);
    let width = do_matching(expr, line, false);
    assert_eq!(depth, width);
    depth
}

#[test]
fn empty_pattern_is_refused() {
    assert_eq!(both("", "abc"), Err(EngineError::Parse(ParseError::Empty)));
}

#[test]
fn star_accepts_zero_repetitions() {
    assert_eq!(both("a*", ""), Ok(true));
}

#[test]
fn plus_needs_one_repetition() {
    assert_eq!(both("a+", ""), Ok(false));
    assert_eq!(both("a+", "a"), Ok(true));
    assert_eq!(both("a+", "aaab"), Ok(true));
    assert_eq!(both("a+", "b"), Ok(false));
}

#[test]
fn alternation_takes_either_side() {
    assert_eq!(both("ab|cd", "cd"), Ok(true));
    assert_eq!(both("ab|cd", "ab"), Ok(true));
    assert_eq!(both("ab|cd", "ad"), Ok(false));
}

#[test]
fn question_is_optional() {
    assert_eq!(both("a?b", "b"), Ok(true));
    assert_eq!(both("a?b", "ab"), Ok(true));
    assert_eq!(both("a?b", "aab"), Ok(false));
}

#[test]
fn open_group_is_refused() {
    assert_eq!(both("(ab", "ab"), Err(EngineError::Parse(ParseError::NoRightParen)));
}

#[test]
fn nested_stars_terminate() {
    assert_eq!(both("a**", "b"), Ok(true));
    assert_eq!(both("a**b", "c"), Ok(false));
    assert_eq!(both("a**b", "aaab"), Ok(true));
    assert_eq!(both("(a*)*b", "aac"), Ok(false));
    assert_eq!(both("(a?)*b", "c"), Ok(false));
    assert_eq!(both("(a*)+b", "ab"), Ok(true));
    assert_eq!(both("(a*|b?)*c", "abad"), Ok(false));
}

#[test]
fn match_is_anchored_at_the_start_only() {
    assert_eq!(both("abc", "abcdef"), Ok(true));
    assert_eq!(both("abc", "xabc"), Ok(false));
    assert_eq!(both("abc", "ab"), Ok(false));
}

#[test]
fn escaped_metacharacter_is_literal() {
    assert_eq!(both("a\\+b", "a+b"), Ok(true));
    assert_eq!(both("a\\+b", "aab"), Ok(false));
    assert_eq!(both("\\(\\)", "()"), Ok(true));
    assert_eq!(both("\\\\", "\\"), Ok(true));
}

#[test]
fn unsupported_escape_is_refused_with_its_position() {
    assert_eq!(both("ab\\n", "ab"), Err(EngineError::Parse(ParseError::InvalidEscape(3, 'n'))));
    assert_eq!(both("\\a", "a"), Err(EngineError::Parse(ParseError::InvalidEscape(1, 'a'))));
}
