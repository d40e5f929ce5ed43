//! Instruction set of the matching machine and the entry points that tie the
//! parser, the code generator and the evaluator together.

use self::codegen::{code_len, get_code, program_of, CodeGenError};
use self::evaluator::{eval, eval_result, EvalError};
use self::language::{lemma_program_decides, matches_prefix};
use self::machine::accepts;
use self::parser::{parse, parse_spec, ParseError, Pattern, AST};
use vstd::prelude::*;

pub mod codegen;
pub mod depth_first;
pub mod display;
pub mod evaluator;
pub mod grammar;
pub mod language;
pub mod machine;
pub mod parser;
pub mod width_first;

verus! {

/// One instruction of the matching machine. Instructions are addressed by
/// their position in the program.
#[derive(Debug, Clone, Copy, PartialEq, Eq, Structural)]
pub enum Instruction {
    /// Consume one input character if it equals the operand.
    Char(char),
    /// Accept.
    Match,
    /// Continue at the given address.
    Jump(usize),
    /// Continue at either address, the first one preferred.
    Split(usize, usize),
}

/// Every jump and split target of `code` lies in `lo ..= hi`.
pub open spec fn targets_within(code: Seq<Instruction>, lo: int, hi: int) -> bool {
    forall|i: int|
        0 <= i < code.len() ==> match #[trigger] code[i] {
            Instruction::Jump(t) => lo <= t <= hi,
            Instruction::Split(t1, t2) => lo <= t1 <= hi && lo <= t2 <= hi,
            _ => true,
        }
}

/// A program is well formed when it ends in `Match` and each of its jump and
/// split targets is the address of one of its instructions.
pub open spec fn well_formed(program: Seq<Instruction>) -> bool {
    &&& program.len() > 0
    &&& program[program.len() - 1] == Instruction::Match
    &&& targets_within(program, 0, program.len() - 1)
}

/// The characters of a string, in order.
pub fn to_chars(s: &str) -> (chars: Vec<char>)
    ensures
        chars@ == s@,
{
    let mut chars: Vec<char> = Vec::new();
    for c in it: s.chars()
        invariant
            it.seq() == s@,
            chars@ == it.seq().take(it.index() as int),
    {
        chars.push(c);
    }
    chars
}

/// Why a pattern could not be matched against a line: the error of the stage
/// that failed.
#[derive(Debug, Clone, Copy, PartialEq, Eq, Structural)]
pub enum EngineError {
    /// The pattern could not be parsed.
    Parse(ParseError),
    /// The syntax tree could not be compiled.
    CodeGen(CodeGenError),
    /// The program could not be run.
    Eval(EvalError),
}

/// The program of a pattern, or the error of the stage that refuses it.
pub open spec fn compile_spec(expr: Seq<char>) -> Result<Seq<Instruction>, EngineError> {
    match parse_spec(expr) {
        Err(e) => Err(EngineError::Parse(e)),
        Ok(p) => if code_len(p) + 1 > usize::MAX {
            Err(EngineError::CodeGen(CodeGenError::PCOverFlow))
        } else {
            Ok(program_of(p))
        },
    }
}

/// Whether a pattern matches a prefix of a line, or the error of the stage
/// that refuses the pattern.
pub open spec fn matching_spec(expr: Seq<char>, line: Seq<char>) -> Result<bool, EngineError> {
    match parse_spec(expr) {
        Err(e) => Err(EngineError::Parse(e)),
        Ok(p) => if code_len(p) + 1 > usize::MAX {
            Err(EngineError::CodeGen(CodeGenError::PCOverFlow))
        } else {
            Ok(matches_prefix(p, line))
        },
    }
}

/// What matching a pattern against a line returns under a given strategy.
pub open spec fn matching_with(expr: Seq<char>, line: Seq<char>, is_depth: bool) -> Result<
    bool,
    EngineError,
> {
    match compile_spec(expr) {
        Err(e) => Err(e),
        Ok(program) => match eval_result(program, line, is_depth) {
            Err(e) => Err(EngineError::Eval(e)),
            Ok(verdict) => Ok(verdict),
        },
    }
}

/// On a well-formed program both strategies return the same verdict.
pub proof fn lemma_strategies_agree(program: Seq<Instruction>, line: Seq<char>)
    requires
        well_formed(program),
    ensures
        eval_result(program, line, true) == eval_result(program, line, false),
        eval_result(program, line, true) == Ok::<bool, EvalError>(accepts(program, line)),
{
    self::depth_first::lemma_depth_first_decides(program, line);
    self::width_first::lemma_width_first_decides(program, line);
}

/// Whatever the pattern and the line, both strategies return the same result:
/// the error that refuses the pattern, or whether the pattern matches a prefix
/// of the line.
pub proof fn lemma_matching_strategy_free(expr: Seq<char>, line: Seq<char>)
    ensures
        matching_with(expr, line, true) == matching_with(expr, line, false),
        matching_with(expr, line, true) == matching_spec(expr, line),
{
    match parse_spec(expr) {
        Err(e) => {},
        Ok(p) => {
            if code_len(p) + 1 <= usize::MAX {
                self::codegen::lemma_program_well_formed(p);
                lemma_strategies_agree(program_of(p), line);
                lemma_program_decides(p, line);
            }
        },
    }
}

/// Parses and compiles a pattern, and returns its syntax tree with its
/// program.
pub fn compile(expr: &str) -> (r: Result<(AST, Vec<Instruction>), EngineError>)
    ensures
        match r {
            Ok((ast, code)) => {
                &&& parse_spec(expr@) == Ok::<Pattern, ParseError>(ast@)
                &&& compile_spec(expr@) == Ok::<Seq<Instruction>, EngineError>(code@)
                &&& well_formed(code@)
            },
            Err(e) => compile_spec(expr@) == Err::<Seq<Instruction>, EngineError>(e),
        },
{
    let ast = match parse(expr) {
        Ok(ast) => ast,
        Err(e) => {
            return Err(EngineError::Parse(e));
        },
    };
    let code = match get_code(&ast) {
        Ok(code) => code,
        Err(e) => {
            return Err(EngineError::CodeGen(e));
        },
    };
    Ok((ast, code))
}

/// Tells whether pattern `expr` matches a prefix of `line`.
///
/// `is_depth` selects the strategy, backtracking or advancing all candidate
/// paths in step; the result does not depend on it. A pattern that cannot be
/// parsed or compiled is refused with the error of that stage; running the
/// program never fails.
pub fn do_matching(expr: &str, line: &str, is_depth: bool) -> (r: Result<bool, EngineError>)
    ensures
        r == matching_spec(expr@, line@),
        r == matching_with(expr@, line@, is_depth),
{
    proof {
        lemma_matching_strategy_free(expr@, line@);
    }
    let (ast, code) = compile(expr)?;
    let chars = to_chars(line);
    match eval(code.as_slice(), chars.as_slice(), is_depth) {
        Ok(verdict) => Ok(verdict),
        Err(e) => Err(EngineError::Eval(e)),
    }
}

/// A pattern that is an escape marker and a character that can be escaped
/// matches exactly the lines that start with that character.
pub proof fn lemma_escaped_matches_literally(c: char, line: Seq<char>)
    requires
        self::parser::is_escapable(c),
    ensures
        matching_spec(seq!['\\', c], line) == Ok::<bool, EngineError>(
            line.len() > 0 && line[0] == c,
        ),
{
    let expr = seq!['\\', c];
    let st = self::parser::scan_start();
    assert(self::parser::scan(expr, 0) == Ok::<self::parser::Scan, ParseError>(st));
    self::parser::lemma_escape_reads_literal(expr, 0, st);
    let p = Pattern::Literal(c);
    assert(st.seq.push(p) =~= seq![p]);
    assert(st.alts.push(p) =~= seq![p]);
    assert(parse_spec(expr) == Ok::<Pattern, ParseError>(p));
    if line.len() > 0 && line[0] == c {
        assert(self::language::spans(p, line, 0, 1));
    }
}

} // verus!
