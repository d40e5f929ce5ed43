//! Pattern syntax: the tree type, its mathematical model and the parser.

use super::grammar::{grammatical, lemma_parse_iff_grammatical, lemma_parsed_depth};
use super::to_chars;
use vstd::prelude::*;

verus! {

/// Why a pattern could not be parsed. Positions count characters from 0.
#[derive(Debug, Clone, Copy, PartialEq, Eq, Structural)]
pub enum ParseError {
    /// The character at the position, which follows an escape marker, cannot
    /// be escaped.
    InvalidEscape(usize, char),
    /// The `)` at the position closes no group.
    InvalidRightParen(usize),
    /// The `+`, `*` or `?` at the position has nothing before it to repeat.
    NoPrev(usize),
    /// A group is still open at the end of the pattern.
    NoRightParen,
    /// The pattern has no characters.
    Empty,
}

/// Mathematical model of a pattern's syntax tree.
pub enum Pattern {
    Literal(char),
    Concat(Seq<Pattern>),
    Alternation(Box<Pattern>, Box<Pattern>),
    OneOrMore(Box<Pattern>),
    ZeroOrMore(Box<Pattern>),
    ZeroOrOne(Box<Pattern>),
}

/// Syntax tree of a pattern.
#[derive(Debug, PartialEq, Eq)]
pub enum AST {
    /// Exactly one character.
    Literal(char),
    /// Each child in order; no children matches the empty string.
    Concat(Vec<AST>),
    /// Either the left or the right tree.
    Alternation(Box<AST>, Box<AST>),
    /// The tree one or more times.
    OneOrMore(Box<AST>),
    /// The tree zero or more times.
    ZeroOrMore(Box<AST>),
    /// The tree zero or one time.
    ZeroOrOne(Box<AST>),
}

/// The models of a list of trees, in order.
pub open spec fn models(v: Seq<AST>) -> Seq<Pattern> {
    Seq::new(v.len(), |i: int| v[i].model())
}

/// Number of nodes on the longest path from the root of `p` to a leaf.
pub open spec fn depth(p: Pattern) -> nat
    decreases p, 0nat,
{
    match p {
        Pattern::Literal(_) => 1,
        Pattern::Concat(ps) => 1 + max_depth(ps, ps.len()),
        Pattern::Alternation(a, b) => 1 + if depth(*a) >= depth(*b) {
            depth(*a)
        } else {
            depth(*b)
        },
        Pattern::OneOrMore(e) => 1 + depth(*e),
        Pattern::ZeroOrMore(e) => 1 + depth(*e),
        Pattern::ZeroOrOne(e) => 1 + depth(*e),
    }
}

/// Largest depth among the first `n` patterns of `ps`.
pub open spec fn max_depth(ps: Seq<Pattern>, n: nat) -> nat
    decreases ps, n,
{
    if n == 0 || n > ps.len() {
        0
    } else {
        let rest = max_depth(ps, (n - 1) as nat);
        let last = depth(ps[n - 1]);
        if last >= rest {
            last
        } else {
            rest
        }
    }
}

/// Every one of the first `n` patterns is at most as deep as their maximum.
pub proof fn lemma_max_depth_bounds(ps: Seq<Pattern>, n: nat, i: int)
    requires
        0 <= i < n <= ps.len(),
    ensures
        depth(ps[i]) <= max_depth(ps, n),
    decreases n,
{
    if i < n - 1 {
        lemma_max_depth_bounds(ps, (n - 1) as nat, i);
    }
}

impl AST {
    /// The tree as a mathematical value.
    pub open spec fn model(self) -> Pattern
        decreases self,
    {
        match self {
            AST::Literal(c) => Pattern::Literal(c),
            AST::Concat(v) => Pattern::Concat(
                Seq::new(
                    v@.len(),
                    |i: int|
                        if 0 <= i < v@.len() {
                            v@[i].model()
                        } else {
                            Pattern::Concat(Seq::empty())
                        },
                ),
            ),
            AST::Alternation(a, b) => Pattern::Alternation(Box::new(a.model()), Box::new(b.model())),
            AST::OneOrMore(e) => Pattern::OneOrMore(Box::new(e.model())),
            AST::ZeroOrMore(e) => Pattern::ZeroOrMore(Box::new(e.model())),
            AST::ZeroOrOne(e) => Pattern::ZeroOrOne(Box::new(e.model())),
        }
    }
}

impl View for AST {
    type V = Pattern;

    open spec fn view(&self) -> Pattern {
        self.model()
    }
}

/// The characters that an escape marker may precede: the marker itself and
/// the characters that otherwise have a meaning of their own.
pub open spec fn is_escapable(c: char) -> bool {
    c == '\\' || c == '(' || c == ')' || c == '|' || c == '+' || c == '*' || c == '?'
}

/// The pattern that repetition operator `op` makes of `p`.
pub open spec fn repeated(op: char, p: Pattern) -> Pattern {
    if op == '+' {
        Pattern::OneOrMore(Box::new(p))
    } else if op == '*' {
        Pattern::ZeroOrMore(Box::new(p))
    } else {
        Pattern::ZeroOrOne(Box::new(p))
    }
}

/// A run of patterns as one pattern: the pattern itself if there is exactly
/// one, their concatenation otherwise.
pub open spec fn fold_seq(seq: Seq<Pattern>) -> Pattern {
    if seq.len() == 1 {
        seq[0]
    } else {
        Pattern::Concat(seq)
    }
}

/// A non-empty list of alternatives as one pattern: the alternative itself if
/// there is one, else the alternation of the first with the rest.
pub open spec fn fold_alts(alts: Seq<Pattern>) -> Pattern
    decreases alts.len(),
{
    if alts.len() <= 1 {
        alts[0]
    } else {
        Pattern::Alternation(Box::new(alts[0]), Box::new(fold_alts(alts.drop_first())))
    }
}

/// The pattern of a group that ends with the alternatives `alts` completed
/// and the run `seq` under way.
pub open spec fn close(seq: Seq<Pattern>, alts: Seq<Pattern>) -> Pattern {
    fold_alts(alts.push(fold_seq(seq)))
}

/// What the parser has set aside at a `(`.
pub struct Level {
    /// The run that the group will join.
    pub seq: Seq<Pattern>,
    /// The alternatives completed before that run.
    pub alts: Seq<Pattern>,
}

/// What the parser knows after reading part of a pattern.
pub struct Scan {
    /// The run of patterns under way.
    pub seq: Seq<Pattern>,
    /// The alternatives completed in the innermost open group.
    pub alts: Seq<Pattern>,
    /// One level for each open group, the innermost last.
    pub stack: Seq<Level>,
    /// The last character read was an escape marker.
    pub escaped: bool,
}

/// What the parser knows before it reads anything.
pub open spec fn scan_start() -> Scan {
    Scan { seq: Seq::empty(), alts: Seq::empty(), stack: Seq::empty(), escaped: false }
}

/// What the parser knows after it reads character `c` at position `pos`.
pub open spec fn scan_step(st: Scan, pos: int, c: char) -> Result<Scan, ParseError> {
    if st.escaped {
        if is_escapable(c) {
            Ok(Scan { seq: st.seq.push(Pattern::Literal(c)), escaped: false, ..st })
        } else {
            Err(ParseError::InvalidEscape(pos as usize, c))
        }
    } else if c == '+' || c == '*' || c == '?' {
        if st.seq.len() == 0 {
            Err(ParseError::NoPrev(pos as usize))
        } else {
            Ok(Scan { seq: st.seq.drop_last().push(repeated(c, st.seq.last())), ..st })
        }
    } else if c == '(' {
        Ok(
            Scan {
                seq: Seq::empty(),
                alts: Seq::empty(),
                stack: st.stack.push(Level { seq: st.seq, alts: st.alts }),
                escaped: false,
            },
        )
    } else if c == ')' {
        if st.stack.len() == 0 {
            Err(ParseError::InvalidRightParen(pos as usize))
        } else {
            let outer = st.stack.last();
            Ok(
                Scan {
                    seq: outer.seq.push(close(st.seq, st.alts)),
                    alts: outer.alts,
                    stack: st.stack.drop_last(),
                    escaped: false,
                },
            )
        }
    } else if c == '|' {
        Ok(Scan { seq: Seq::empty(), alts: st.alts.push(fold_seq(st.seq)), ..st })
    } else if c == '\\' {
        Ok(Scan { escaped: true, ..st })
    } else {
        Ok(Scan { seq: st.seq.push(Pattern::Literal(c)), ..st })
    }
}

/// What the parser knows after it reads the first `n` characters.
pub open spec fn scan(chars: Seq<char>, n: nat) -> Result<Scan, ParseError>
    decreases n,
{
    if n == 0 {
        Ok(scan_start())
    } else {
        match scan(chars, (n - 1) as nat) {
            Ok(st) => scan_step(st, n - 1, chars[n - 1]),
            Err(e) => Err(e),
        }
    }
}

/// The syntax tree of a pattern, or the reason why it has none.
///
/// A pattern without characters is refused as `Empty`. Otherwise the first
/// character that cannot be read decides the error; a pattern that is read to
/// its end with a group still open is refused as `NoRightParen`. An escape
/// marker that ends the pattern is ignored.
pub open spec fn parse_spec(chars: Seq<char>) -> Result<Pattern, ParseError> {
    if chars.len() == 0 {
        Err(ParseError::Empty)
    } else {
        match scan(chars, chars.len()) {
            Ok(st) => if st.stack.len() > 0 {
                Err(ParseError::NoRightParen)
            } else {
                Ok(close(st.seq, st.alts))
            },
            Err(e) => Err(e),
        }
    }
}

/// What `parse` owes for a pattern with the characters `chars`.
pub open spec fn parses_to(chars: Seq<char>, r: Result<AST, ParseError>) -> bool {
    match r {
        Ok(ast) => parse_spec(chars) == Ok::<Pattern, ParseError>(ast@),
        Err(e) => parse_spec(chars) == Err::<Pattern, ParseError>(e),
    }
}

/// Once a character cannot be read, reading on does not change the error.
pub proof fn lemma_scan_error_stays(chars: Seq<char>, m: nat, n: nat)
    requires
        m <= n,
        scan(chars, m) is Err,
    ensures
        scan(chars, n) == scan(chars, m),
    decreases n,
{
    if m < n {
        lemma_scan_error_stays(chars, m, (n - 1) as nat);
    }
}

/// Reading never fails with `Empty`.
pub proof fn lemma_scan_never_empty(chars: Seq<char>, n: nat)
    ensures
        scan(chars, n) != Err::<Scan, ParseError>(ParseError::Empty),
        scan(chars, n) != Err::<Scan, ParseError>(ParseError::NoRightParen),
    decreases n,
{
    if n > 0 {
        lemma_scan_never_empty(chars, (n - 1) as nat);
    }
}

/// A pattern is refused as `Empty` exactly when it has no characters.
pub proof fn lemma_empty_iff_no_chars(chars: Seq<char>)
    ensures
        parse_spec(chars) == Err::<Pattern, ParseError>(ParseError::Empty) <==> chars.len() == 0,
{
    lemma_scan_never_empty(chars, chars.len());
}

/// An escape marker followed by a character that can be escaped reads as that
/// character taken literally, whatever the character means otherwise.
pub proof fn lemma_escape_reads_literal(chars: Seq<char>, n: nat, st: Scan)
    requires
        n + 2 <= chars.len(),
        scan(chars, n) == Ok::<Scan, ParseError>(st),
        !st.escaped,
        chars[n as int] == '\\',
        is_escapable(chars[n as int + 1]),
    ensures
        scan(chars, n + 2) == Ok::<Scan, ParseError>(
            Scan { seq: st.seq.push(Pattern::Literal(chars[n as int + 1])), ..st },
        ),
{
    let marked = Scan { escaped: true, ..st };
    assert(scan(chars, n + 1) == scan_step(st, n as int, chars[n as int]));
    assert(scan(chars, n + 1) == Ok::<Scan, ParseError>(marked));
    assert(scan(chars, n + 2) == scan_step(marked, n as int + 1, chars[n as int + 1]));
}

/// An escape marker followed by a character that cannot be escaped has the
/// pattern refused as `InvalidEscape`, with the position of that character
/// and the character itself.
pub proof fn lemma_escape_refused(chars: Seq<char>, n: nat, st: Scan)
    requires
        n + 2 <= chars.len(),
        scan(chars, n) == Ok::<Scan, ParseError>(st),
        !st.escaped,
        chars[n as int] == '\\',
        !is_escapable(chars[n as int + 1]),
    ensures
        parse_spec(chars) == Err::<Pattern, ParseError>(
            ParseError::InvalidEscape((n + 1) as usize, chars[n as int + 1]),
        ),
{
    let marked = Scan { escaped: true, ..st };
    assert(scan(chars, n + 1) == scan_step(st, n as int, chars[n as int]));
    assert(scan(chars, n + 1) == Ok::<Scan, ParseError>(marked));
    assert(scan(chars, n + 2) == scan_step(marked, n as int + 1, chars[n as int + 1]));
    lemma_scan_error_stays(chars, n + 2, chars.len());
}

/// Folding the last two alternatives into one first does not change the
/// pattern of the whole list.
pub proof fn lemma_fold_alts_last(alts: Seq<Pattern>, x: Pattern, y: Pattern)
    ensures
        fold_alts(alts.push(x).push(y)) == fold_alts(
            alts.push(Pattern::Alternation(Box::new(x), Box::new(y))),
        ),
    decreases alts.len(),
{
    let both = alts.push(x).push(y);
    let one = alts.push(Pattern::Alternation(Box::new(x), Box::new(y)));
    if alts.len() == 0 {
        assert(both.drop_first() =~= seq![y]);
        assert(fold_alts(both.drop_first()) == y);
    } else {
        lemma_fold_alts_last(alts.drop_first(), x, y);
        assert(both.drop_first() =~= alts.drop_first().push(x).push(y));
        assert(one.drop_first() =~= alts.drop_first().push(
            Pattern::Alternation(Box::new(x), Box::new(y)),
        ));
    }
}

/// The model of a one-character tree.
pub proof fn lemma_literal_model(c: char)
    ensures
        AST::Literal(c)@ == Pattern::Literal(c),
{
}

/// The models of a list with one more tree.
pub proof fn lemma_models_push(v: Seq<AST>, ast: AST)
    ensures
        models(v.push(ast)) == models(v).push(ast@),
{
    assert(models(v.push(ast)) =~= models(v).push(ast@));
}

/// The models of a list without its last tree.
pub proof fn lemma_models_drop_last(v: Seq<AST>)
    requires
        v.len() > 0,
    ensures
        models(v.drop_last()) == models(v).drop_last(),
        models(v).last() == v.last()@,
{
    assert(models(v.drop_last()) =~= models(v).drop_last());
}

/// Which repetition operator was read.
enum PSQ {
    Plus,
    Star,
    Question,
}

impl PSQ {
    /// The operator's character.
    spec fn op(self) -> char {
        match self {
            PSQ::Plus => '+',
            PSQ::Star => '*',
            PSQ::Question => '?',
        }
    }
}

/// Whether the character just read is to be taken literally.
enum ParseState {
    Char,
    Escape,
}

/// Parses a pattern into its syntax tree.
///
/// A pattern is a sequence of alternatives separated by `|`; an alternative is
/// a run of elements; an element is a character, an escaped character or a
/// group in parentheses, followed by any number of `+`, `*` and `?`. A text
/// that is a pattern gets its tree, which is at most one deeper than the text
/// is long; any other text is refused, with the error of the first character
/// that cannot be read.
pub fn parse(expr: &str) -> (r: Result<AST, ParseError>)
    ensures
        parses_to(expr@, r),
        r is Ok ==> grammatical(expr@, r->Ok_0@),
        r is Ok ==> depth(r->Ok_0@) <= expr@.len() + 1,
        r is Err ==> forall|p: Pattern| !grammatical(expr@, p),
{
    proof {
        assert forall|p: Pattern| #[trigger]
            grammatical(expr@, p) <==> parse_spec(expr@) == Ok::<Pattern, ParseError>(p) by {
            lemma_parse_iff_grammatical(expr@, p);
        }
    }
    let chars = to_chars(expr);
    if chars.len() == 0 {
        return Err(ParseError::Empty);
    }
    let mut seq: Vec<AST> = Vec::new();
    let mut seq_or: Vec<AST> = Vec::new();
    let mut stack: Vec<(Vec<AST>, Vec<AST>)> = Vec::new();
    let mut state = ParseState::Char;
    let ghost mut st = scan_start();
    let mut i: usize = 0;
    proof {
        assert(models(seq@) =~= st.seq);
        assert(models(seq_or@) =~= st.alts);
    }
    while i < chars.len()
        invariant
            i <= chars@.len(),
            chars@ == expr@,
            forall|p: Pattern| #[trigger]
                grammatical(expr@, p) <==> parse_spec(expr@) == Ok::<Pattern, ParseError>(p),
            scan(chars@, i as nat) == Ok::<Scan, ParseError>(st),
            models(seq@) == st.seq,
            models(seq_or@) == st.alts,
            st.escaped == (state is Escape),
            stack@.len() == st.stack.len(),
            forall|k: int|
                0 <= k < stack@.len() ==> {
                    &&& models((#[trigger] stack@[k]).0@) == st.stack[k].seq
                    &&& models(stack@[k].1@) == st.stack[k].alts
                },
        decreases chars@.len() - i,
    {
        let c = chars[i];
        let ghost stepped = scan_step(st, i as int, c);
        proof {
            assert(scan(chars@, (i + 1) as nat) == stepped);
            if stepped is Err {
                lemma_scan_error_stays(chars@, (i + 1) as nat, chars@.len());
            }
        }
        match state {
            ParseState::Char => {
                if c == '+' {
                    parse_plus_star_question(&mut seq, PSQ::Plus, i)?;
                } else if c == '*' {
                    parse_plus_star_question(&mut seq, PSQ::Star, i)?;
                } else if c == '?' {
                    parse_plus_star_question(&mut seq, PSQ::Question, i)?;
                } else if c == '(' {
                    let prev = seq;
                    let prev_or = seq_or;
                    seq = Vec::new();
                    seq_or = Vec::new();
                    stack.push((prev, prev_or));
                    proof {
                        assert(models(seq@) =~= stepped->Ok_0.seq);
                        assert(models(seq_or@) =~= stepped->Ok_0.alts);
                    }
                } else if c == ')' {
                    match stack.pop() {
                        Some((mut prev, prev_or)) => {
                            let group = fold_group(seq, seq_or);
                            proof {
                                lemma_models_push(prev@, group);
                            }
                            prev.push(group);
                            seq = prev;
                            seq_or = prev_or;
                        },
                        None => {
                            return Err(ParseError::InvalidRightParen(i));
                        },
                    }
                } else if c == '|' {
                    let prev = seq;
                    seq = Vec::new();
                    let alt = fold_run(prev);
                    proof {
                        lemma_models_push(seq_or@, alt);
                    }
                    seq_or.push(alt);
                    proof {
                        assert(models(seq@) =~= stepped->Ok_0.seq);
                    }
                } else if c == '\\' {
                    state = ParseState::Escape;
                } else {
                    proof {
                        lemma_models_push(seq@, AST::Literal(c));
                        lemma_literal_model(c);
                    }
                    seq.push(AST::Literal(c));
                }
            },
            ParseState::Escape => {
                let ast = parse_escape(i, c)?;
                proof {
                    lemma_models_push(seq@, ast);
                }
                seq.push(ast);
                state = ParseState::Char;
            },
        }
        proof {
            st = stepped->Ok_0;
        }
        i += 1;
    }
    if stack.len() > 0 {
        return Err(ParseError::NoRightParen);
    }
    let ast = fold_group(seq, seq_or);
    proof {
        lemma_parsed_depth(expr@, ast@);
    }
    Ok(ast)
}

/// The tree of an escaped character, if the character can be escaped.
fn parse_escape(pos: usize, c: char) -> (r: Result<AST, ParseError>)
    ensures
        match r {
            Ok(ast) => is_escapable(c) && ast@ == Pattern::Literal(c),
            Err(e) => !is_escapable(c) && e == ParseError::InvalidEscape(pos, c),
        },
{
    if c == '\\' || c == '(' || c == ')' || c == '|' || c == '+' || c == '*' || c == '?' {
        Ok(AST::Literal(c))
    } else {
        Err(ParseError::InvalidEscape(pos, c))
    }
}

/// Replaces the last tree of the run by its repetition.
fn parse_plus_star_question(seq: &mut Vec<AST>, ast_type: PSQ, pos: usize) -> (r: Result<
    (),
    ParseError,
>)
    ensures
        match r {
            Ok(()) => {
                &&& old(seq)@.len() > 0
                &&& models(final(seq)@) == models(old(seq)@).drop_last().push(
                    repeated(ast_type.op(), models(old(seq)@).last()),
                )
            },
            Err(e) => old(seq)@.len() == 0 && e == ParseError::NoPrev(pos),
        },
{
    match seq.pop() {
        Some(prev) => {
            let ast = match ast_type {
                PSQ::Plus => AST::OneOrMore(Box::new(prev)),
                PSQ::Star => AST::ZeroOrMore(Box::new(prev)),
                PSQ::Question => AST::ZeroOrOne(Box::new(prev)),
            };
            proof {
                lemma_models_drop_last(old(seq)@);
                lemma_models_push(seq@, ast);
            }
            seq.push(ast);
            Ok(())
        },
        None => Err(ParseError::NoPrev(pos)),
    }
}

/// A run of trees as one tree.
fn fold_run(seq: Vec<AST>) -> (ast: AST)
    ensures
        ast@ == fold_seq(models(seq@)),
{
    let ghost ps = models(seq@);
    let mut run = seq;
    if run.len() == 1 {
        match run.pop() {
            Some(only) => only,
            None => AST::Concat(run),
        }
    } else {
        let ast = AST::Concat(run);
        proof {
            assert(ast@->Concat_0 =~= ps);
        }
        ast
    }
}

/// A list of alternatives as one tree, if there is any alternative.
fn fold_or(seq_or: Vec<AST>) -> (r: Option<AST>)
    ensures
        match r {
            Some(ast) => seq_or@.len() > 0 && ast@ == fold_alts(models(seq_or@)),
            None => seq_or@.len() == 0,
        },
{
    let ghost all = models(seq_or@);
    let mut rest = seq_or;
    match rest.pop() {
        None => None,
        Some(last) => {
            let mut ast = last;
            proof {
                lemma_models_drop_last(seq_or@);
                assert(all =~= models(rest@).push(ast@));
            }
            while rest.len() > 0
                invariant
                    fold_alts(models(rest@).push(ast@)) == fold_alts(all),
                decreases rest@.len(),
            {
                let ghost before = rest@;
                let ghost right = ast@;
                match rest.pop() {
                    Some(left) => {
                        proof {
                            lemma_models_drop_last(before);
                            lemma_fold_alts_last(models(rest@), left@, right);
                            assert(models(before) =~= models(rest@).push(left@));
                        }
                        ast = AST::Alternation(Box::new(left), Box::new(ast));
                    },
                    None => {},
                }
            }
            proof {
                assert(models(rest@).push(ast@) =~= seq![ast@]);
            }
            Some(ast)
        },
    }
}

/// The tree of a group that ends with the alternatives `seq_or` completed and
/// the run `seq` under way.
fn fold_group(seq: Vec<AST>, seq_or: Vec<AST>) -> (ast: AST)
    ensures
        ast@ == close(models(seq@), models(seq_or@)),
{
    let last = fold_run(seq);
    let mut alts = seq_or;
    proof {
        lemma_models_push(alts@, last);
    }
    alts.push(last);
    match fold_or(alts) {
        Some(ast) => ast,
        None => AST::Concat(Vec::new()),
    }
}

} // verus!
