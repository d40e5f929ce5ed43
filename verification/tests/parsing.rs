use regex_engine::engine::parser::{parse, ParseError, AST};

fn lit(c: char) -> AST {
    AST::Literal(c)
}

fn cat(v: Vec<AST>) -> AST {
    AST::Concat(v)
}

fn alt(a: AST, b: AST) -> AST {
    AST::Alternation(Box::new(a), Box::new(b))
}

fn plus(a: AST) -> AST {
    AST::OneOrMore(Box::new(a))
}

fn star(a: AST) -> AST {
    AST::ZeroOrMore(Box::new(a))
}

fn opt(a: AST) -> AST {
    AST::ZeroOrOne(Box::new(a))
}

#[test]
fn single_character_is_a_leaf() {
    assert_eq!(parse("a"), Ok(lit('a')));
}

#[test]
fn run_of_characters_is_a_concatenation() {
    assert_eq!(parse("abc"), Ok(cat(vec![lit('a'), lit('b'), lit('c')])));
}

#[test]
fn repetition_binds_to_the_last_element() {
    assert_eq!(parse("ab+"), Ok(cat(vec![lit('a'), plus(lit('b'))])));
    assert_eq!(parse("ab*"), Ok(cat(vec![lit('a'), star(lit('b'))])));
    assert_eq!(parse("ab?"), Ok(cat(vec![lit('a'), opt(lit('b'))])));
}

#[test]
fn repetitions_stack() {
    assert_eq!(parse("a**"), Ok(star(star(lit('a')))));
    assert_eq!(parse("a+?"), Ok(opt(plus(lit('a')))));
}

#[test]
fn alternatives_nest_to_the_right() {
    assert_eq!(parse("a|b"), Ok(alt(lit('a'), lit('b'))));
    assert_eq!(parse("a|b|c"), Ok(alt(lit('a'), alt(lit('b'), lit('c')))));
    assert_eq!(
        parse("ab|cd"),
        Ok(alt(cat(vec![lit('a'), lit('b')]), cat(vec![lit('c'), lit('d')])))
    );
}

#[test]
fn group_is_one_element() {
    assert_eq!(parse("(ab)*"), Ok(star(cat(vec![lit('a'), lit('b')]))));
    assert_eq!(parse("(a)"), Ok(lit('a')));
    assert_eq!(parse("a(b|c)d"), Ok(cat(vec![lit('a'), alt(lit('b'), lit('c')), lit('d')])));
    assert_eq!(parse("((a))"), Ok(lit('a')));
}

#[test]
fn empty_alternative_and_empty_group_match_nothing_but_the_empty_string() {
    assert_eq!(parse("()"), Ok(cat(vec![])));
    assert_eq!(parse("a|"), Ok(alt(lit('a'), cat(vec![]))));
    assert_eq!(parse("|a"), Ok(alt(cat(vec![]), lit('a'))));
    assert_eq!(parse("()*"), Ok(star(cat(vec![]))));
}

#[test]
fn escaped_characters_are_leaves() {
    assert_eq!(parse("\\+"), Ok(lit('+')));
    assert_eq!(parse("\\*"), Ok(lit('*')));
    assert_eq!(parse("\\?"), Ok(lit('?')));
    assert_eq!(parse("\\("), Ok(lit('(')));
    assert_eq!(parse("\\)"), Ok(lit(')')));
    assert_eq!(parse("\\|"), Ok(lit('|')));
    assert_eq!(parse("\\\\"), Ok(lit('\\')));
    assert_eq!(parse("a\\+b"), Ok(cat(vec![lit('a'), lit('+'), lit('b')])));
    assert_eq!(parse("\\++"), Ok(plus(lit('+'))));
}

#[test]
fn escape_marker_at_the_end_is_ignored() {
    assert_eq!(parse("a\\"), Ok(lit('a')));
    assert_eq!(parse("\\"), Ok(cat(vec![])));
}

#[test]
fn empty_pattern() {
    assert_eq!(parse(""), Err(ParseError::Empty));
}

#[test]
fn invalid_escape_names_position_and_character() {
    assert_eq!(parse("\\a"), Err(ParseError::InvalidEscape(1, 'a')));
    assert_eq!(parse("ab\\cd"), Err(ParseError::InvalidEscape(3, 'c')));
    assert_eq!(parse("(a|b\\x"), Err(ParseError::InvalidEscape(5, 'x')));
}

#[test]
fn repetition_without_an_element() {
    assert_eq!(parse("+"), Err(ParseError::NoPrev(0)));
    assert_eq!(parse("*a"), Err(ParseError::NoPrev(0)));
    assert_eq!(parse("a(?b)"), Err(ParseError::NoPrev(2)));
    assert_eq!(parse("a|*"), Err(ParseError::NoPrev(2)));
    assert_eq!(parse("ab(c|+"), Err(ParseError::NoPrev(5)));
}

#[test]
fn unbalanced_parentheses() {
    assert_eq!(parse("(ab"), Err(ParseError::NoRightParen));
    assert_eq!(parse("((a)"), Err(ParseError::NoRightParen));
    assert_eq!(parse("ab)"), Err(ParseError::InvalidRightParen(2)));
    assert_eq!(parse(")"), Err(ParseError::InvalidRightParen(0)));
    assert_eq!(parse("(a))("), Err(ParseError::InvalidRightParen(3)));
}

#[test]
fn first_error_wins() {
    assert_eq!(parse("(+"), Err(ParseError::NoPrev(1)));
    assert_eq!(parse("a)\\z"), Err(ParseError::InvalidRightParen(1)));
}

#[test]
fn positions_count_characters_not_bytes() {
    assert_eq!(parse("é+"), Ok(plus(lit('é'))));
    assert_eq!(parse("éé)"), Err(ParseError::InvalidRightParen(2)));
    assert_eq!(parse("日本\\語"), Err(ParseError::InvalidEscape(3, '語')));
}

fn depth_of(ast: &AST) -> usize {
    match ast {
        AST::Literal(_) => 1,
        AST::Concat(v) => 1 + v.iter().map(depth_of).max().unwrap_or(0),
        AST::Alternation(a, b) => 1 + depth_of(a).max(depth_of(b)),
        AST::OneOrMore(e) | AST::ZeroOrMore(e) | AST::ZeroOrOne(e) => 1 + depth_of(e),
    }
}

#[test]
fn tree_is_at_most_one_deeper_than_the_pattern_is_long() {
    assert_eq!(depth_of(&parse("|").unwrap()), 2);
    assert_eq!(depth_of(&parse("a**").unwrap()), 3);
    assert_eq!(depth_of(&parse("((a))").unwrap()), 1);
    let patterns = [
        "a", "ab", "a|b", "|", "||", "()", "a*", "a*b", "a*|b", "(a|b)*c", "((a|b)+c?)*d",
        "a?+*?+*", "(|)", "\\", "a\\", "(a(b(c(d|e)*)*)*)*",
    ];
    for expr in patterns {
        let ast = parse(expr).unwrap();
        assert!(depth_of(&ast) <= expr.chars().count() + 1);
    }
}
