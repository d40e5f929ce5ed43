//! Text forms of instructions and errors.

use super::codegen::CodeGenError;
use super::evaluator::EvalError;
use super::parser::ParseError;
use super::{EngineError, Instruction};
use vstd::prelude::*;
use vstd::string::StringExecFns;

verus! {

/// `String::push` of the standard library: the string afterwards is the
/// string before with the character appended.
pub assume_specification[ String::push ](s: &mut String, ch: char)
    ensures
        final(s)@ == old(s)@.push(ch),
;

/// The character of a decimal digit.
pub open spec fn digit(d: nat) -> char {
    if d == 0 {
        '0'
    } else if d == 1 {
        '1'
    } else if d == 2 {
        '2'
    } else if d == 3 {
        '3'
    } else if d == 4 {
        '4'
    } else if d == 5 {
        '5'
    } else if d == 6 {
        '6'
    } else if d == 7 {
        '7'
    } else if d == 8 {
        '8'
    } else {
        '9'
    }
}

/// The decimal digits of `n`, without leading zeros.
pub open spec fn decimal(n: nat) -> Seq<char>
    decreases n,
{
    if n < 10 {
        seq![digit(n)]
    } else {
        decimal(n / 10).push(digit(n % 10))
    }
}

/// The decimal digits of `n`, with zeros in front where they are fewer than
/// `width`.
pub open spec fn zero_padded(n: nat, width: nat) -> Seq<char> {
    let digits = decimal(n);
    if digits.len() >= width {
        digits
    } else {
        Seq::new((width - digits.len()) as nat, |i: int| '0') + digits
    }
}

fn digit_char(d: usize) -> (c: char)
    requires
        d < 10,
    ensures
        c == digit(d as nat),
{
    if d == 0 {
        '0'
    } else if d == 1 {
        '1'
    } else if d == 2 {
        '2'
    } else if d == 3 {
        '3'
    } else if d == 4 {
        '4'
    } else if d == 5 {
        '5'
    } else if d == 6 {
        '6'
    } else if d == 7 {
        '7'
    } else if d == 8 {
        '8'
    } else {
        '9'
    }
}

/// Appends `n` in decimal, zero-padded to `width` digits.
fn push_decimal(s: &mut String, n: usize, width: usize)
    ensures
        final(s)@ == old(s)@ + zero_padded(n as nat, width as nat),
{
    // the digits, the last one first
    let mut digits: Vec<char> = Vec::new();
    digits.push(digit_char(n % 10));
    let mut rest: usize = n / 10;
    proof {
        assert(digits@.reverse() =~= seq![digit((n % 10) as nat)]);
    }
    while rest > 0
        invariant
            digits@.len() > 0,
            decimal(n as nat) == if rest > 0 {
                decimal(rest as nat) + digits@.reverse()
            } else {
                digits@.reverse()
            },
        decreases rest,
    {
        let ghost before = digits@;
        digits.push(digit_char(rest % 10));
        proof {
            let d = digit((rest % 10) as nat);
            assert(digits@.reverse() =~= seq![d] + before.reverse());
            if rest >= 10 {
                assert(decimal(rest as nat) + before.reverse() =~= decimal((rest / 10) as nat)
                    + digits@.reverse());
            } else {
                assert(decimal(rest as nat) + before.reverse() =~= digits@.reverse());
            }
        }
        rest = rest / 10;
    }
    let ghost start = s@;
    let mut written: usize = digits.len();
    while written < width
        invariant
            digits@.len() <= written <= width || (written == digits@.len() && written >= width),
            s@ == start + Seq::new((written - digits@.len()) as nat, |i: int| '0'),
        decreases width - written,
    {
        s.push('0');
        written = written + 1;
        proof {
            assert(s@ =~= start + Seq::new((written - digits@.len()) as nat, |i: int| '0'));
        }
    }
    let ghost padded = s@;
    let mut k: usize = digits.len();
    while k > 0
        invariant
            k <= digits@.len(),
            s@ == padded + digits@.reverse().take(digits@.len() - k),
        decreases k,
    {
        k = k - 1;
        s.push(digits[k]);
        proof {
            assert(s@ =~= padded + digits@.reverse().take(digits@.len() - k));
        }
    }
    proof {
        assert(digits@.reverse().take(digits@.len() as int) =~= digits@.reverse());
        assert(s@ =~= old(s)@ + zero_padded(n as nat, width as nat));
    }
}

impl Instruction {
    /// The text of the instruction: its name, then its operands, addresses
    /// with at least four digits.
    pub open spec fn text(self) -> Seq<char> {
        match self {
            Instruction::Char(c) => "char "@.push(c),
            Instruction::Match => "match"@,
            Instruction::Jump(addr) => "Jump "@ + zero_padded(addr as nat, 4),
            Instruction::Split(addr1, addr2) => "split "@ + zero_padded(addr1 as nat, 4) + ", "@
                + zero_padded(addr2 as nat, 4),
        }
    }

    /// Renders the instruction.
    pub fn to_string(&self) -> (s: String)
        ensures
            s@ == self.text(),
    {
        match self {
            Instruction::Char(c) => {
                let mut s = String::from_str("char ");
                s.push(*c);
                s
            },
            Instruction::Match => String::from_str("match"),
            Instruction::Jump(addr) => {
                let mut s = String::from_str("Jump ");
                push_decimal(&mut s, *addr, 4);
                s
            },
            Instruction::Split(addr1, addr2) => {
                let mut s = String::from_str("split ");
                push_decimal(&mut s, *addr1, 4);
                s.append(", ");
                push_decimal(&mut s, *addr2, 4);
                s
            },
        }
    }
}

/// One line for each instruction of a program: its address with at least four
/// digits, a colon, a space and the instruction's text.
pub open spec fn listing_line(program: Seq<Instruction>, i: int) -> Seq<char> {
    zero_padded(i as nat, 4) + ": "@ + program[i].text()
}

/// Renders a program, one line for each instruction.
pub fn listing(code: &[Instruction]) -> (lines: Vec<String>)
    ensures
        lines@.len() == code@.len(),
        forall|i: int| 0 <= i < code@.len() ==> (#[trigger] lines@[i])@ == listing_line(code@, i),
{
    let mut lines: Vec<String> = Vec::new();
    let mut i: usize = 0;
    while i < code.len()
        invariant
            i <= code@.len(),
            lines@.len() == i,
            forall|k: int| 0 <= k < i ==> (#[trigger] lines@[k])@ == listing_line(code@, k),
        decreases code@.len() - i,
    {
        let mut line = String::from_str("");
        proof {
            reveal_strlit("");
            assert(line@ =~= Seq::<char>::empty());
        }
        push_decimal(&mut line, i, 4);
        line.append(": ");
        let text = code[i].to_string();
        line.append(text.as_str());
        proof {
            assert(line@ =~= listing_line(code@, i as int));
        }
        lines.push(line);
        i += 1;
    }
    lines
}

impl ParseError {
    /// The message of the error.
    pub open spec fn text(self) -> Seq<char> {
        match self {
            ParseError::InvalidEscape(pos, c) => "ParseError: invalid escape: pos = "@ + decimal(
                pos as nat,
            ) + ", char = '"@ + seq![c] + "'"@,
            ParseError::InvalidRightParen(pos) => "ParseError: invalid right parenthesis: pos = "@
                + decimal(pos as nat),
            ParseError::NoPrev(pos) => "ParseError: no previous expression: pos = "@ + decimal(
                pos as nat,
            ),
            ParseError::NoRightParen => "ParseError: no right parenthesis"@,
            ParseError::Empty => "ParseError: empty expression"@,
        }
    }

    /// Renders the error.
    pub fn to_string(&self) -> (s: String)
        ensures
            s@ == self.text(),
    {
        match self {
            ParseError::InvalidEscape(pos, c) => {
                let mut s = String::from_str("ParseError: invalid escape: pos = ");
                push_decimal(&mut s, *pos, 0);
                s.append(", char = '");
                let ghost before = s@;
                s.push(*c);
                proof {
                    assert(s@ =~= before + seq![*c]);
                }
                s.append("'");
                s
            },
            ParseError::InvalidRightParen(pos) => {
                let mut s = String::from_str("ParseError: invalid right parenthesis: pos = ");
                push_decimal(&mut s, *pos, 0);
                s
            },
            ParseError::NoPrev(pos) => {
                let mut s = String::from_str("ParseError: no previous expression: pos = ");
                push_decimal(&mut s, *pos, 0);
                s
            },
            ParseError::NoRightParen => String::from_str("ParseError: no right parenthesis"),
            ParseError::Empty => String::from_str("ParseError: empty expression"),
        }
    }
}

impl CodeGenError {
    /// The message of the error.
    pub open spec fn text(self) -> Seq<char> {
        match self {
            CodeGenError::PCOverFlow => "CodeGenError: PCOverFlow"@,
            CodeGenError::FailStar => "CodeGenError: FailStar"@,
            CodeGenError::FailOr => "CodeGenError: FailOr"@,
            CodeGenError::FailQuestion => "CodeGenError: FailQuestion"@,
        }
    }

    /// Renders the error.
    pub fn to_string(&self) -> (s: String)
        ensures
            s@ == self.text(),
    {
        match self {
            CodeGenError::PCOverFlow => String::from_str("CodeGenError: PCOverFlow"),
            CodeGenError::FailStar => String::from_str("CodeGenError: FailStar"),
            CodeGenError::FailOr => String::from_str("CodeGenError: FailOr"),
            CodeGenError::FailQuestion => String::from_str("CodeGenError: FailQuestion"),
        }
    }
}

impl EvalError {
    /// The message of the error.
    pub open spec fn text(self) -> Seq<char> {
        match self {
            EvalError::PCOverFlow => "EvalError: PCOverFlow"@,
            EvalError::SPOverFlow => "EvalError: SPOverFlow"@,
            EvalError::InvalidPC => "EvalError: InvalidPC"@,
        }
    }

    /// Renders the error.
    pub fn to_string(&self) -> (s: String)
        ensures
            s@ == self.text(),
    {
        match self {
            EvalError::PCOverFlow => String::from_str("EvalError: PCOverFlow"),
            EvalError::SPOverFlow => String::from_str("EvalError: SPOverFlow"),
            EvalError::InvalidPC => String::from_str("EvalError: InvalidPC"),
        }
    }
}

impl EngineError {
    /// The message of the error: that of the stage that failed.
    pub open spec fn text(self) -> Seq<char> {
        match self {
            EngineError::Parse(e) => e.text(),
            EngineError::CodeGen(e) => e.text(),
            EngineError::Eval(e) => e.text(),
        }
    }

    /// Renders the error.
    pub fn to_string(&self) -> (s: String)
        ensures
            s@ == self.text(),
    {
        match self {
            EngineError::Parse(e) => e.to_string(),
            EngineError::CodeGen(e) => e.to_string(),
            EngineError::Eval(e) => e.to_string(),
        }
    }
}

/// The number that a decimal digit stands for.
pub open spec fn digit_value(c: char) -> nat {
    if c == '1' {
        1
    } else if c == '2' {
        2
    } else if c == '3' {
        3
    } else if c == '4' {
        4
    } else if c == '5' {
        5
    } else if c == '6' {
        6
    } else if c == '7' {
        7
    } else if c == '8' {
        8
    } else if c == '9' {
        9
    } else {
        0
    }
}

/// The character is a decimal digit.
pub open spec fn is_digit(c: char) -> bool {
    c == '0' || c == '1' || c == '2' || c == '3' || c == '4' || c == '5' || c == '6' || c == '7'
        || c == '8' || c == '9'
}

/// The number that decimal digits stand for, zeros in front or not.
pub open spec fn value(digits: Seq<char>) -> nat
    decreases digits.len(),
{
    if digits.len() == 0 {
        0
    } else {
        value(digits.drop_last()) * 10 + digit_value(digits.last())
    }
}

/// Every character of `text` is a decimal digit.
pub open spec fn all_digits(text: Seq<char>) -> bool {
    forall|i: int| 0 <= i < text.len() ==> is_digit(#[trigger] text[i])
}

/// The decimal digits of a number are digits, and stand for the number.
pub proof fn lemma_decimal_value(n: nat)
    ensures
        decimal(n).len() >= 1,
        all_digits(decimal(n)),
        value(decimal(n)) == n,
    decreases n,
{
    if n < 10 {
        assert(decimal(n).drop_last() =~= Seq::<char>::empty());
        assert(value(decimal(n).drop_last()) == 0);
    } else {
        lemma_decimal_value(n / 10);
        assert(decimal(n).drop_last() =~= decimal(n / 10));
        assert forall|i: int| 0 <= i < decimal(n).len() implies is_digit(
            #[trigger] decimal(n)[i],
        ) by {
            if i < decimal(n / 10).len() {
                assert(decimal(n)[i] == decimal(n / 10)[i]);
            }
        }
    }
}

/// Zeros in front of digits do not change the number.
pub proof fn lemma_zeros_value(k: nat, digits: Seq<char>)
    ensures
        value(Seq::new(k, |i: int| '0') + digits) == value(digits),
    decreases digits.len(), k,
{
    let zeros = Seq::new(k, |i: int| '0');
    let all = zeros + digits;
    if digits.len() > 0 {
        lemma_zeros_value(k, digits.drop_last());
        assert(all.drop_last() =~= zeros + digits.drop_last());
    } else if k > 0 {
        let fewer = Seq::new((k - 1) as nat, |i: int| '0');
        lemma_zeros_value((k - 1) as nat, digits);
        assert(all.drop_last() =~= fewer + digits);
    } else {
        assert(all =~= digits);
    }
}

/// A number rendered with zeros in front is digits, at least as many as
/// asked for, and stands for the number.
pub proof fn lemma_padded_value(n: nat, width: nat)
    ensures
        zero_padded(n, width).len() >= 1,
        zero_padded(n, width).len() >= width,
        all_digits(zero_padded(n, width)),
        value(zero_padded(n, width)) == n,
{
    lemma_decimal_value(n);
    let digits = decimal(n);
    if digits.len() < width {
        let k = (width - digits.len()) as nat;
        lemma_zeros_value(k, digits);
        let zeros = Seq::new(k, |i: int| '0');
        assert forall|i: int| 0 <= i < (zeros + digits).len() implies is_digit(
            #[trigger] (zeros + digits)[i],
        ) by {
            if i >= k {
                assert((zeros + digits)[i] == digits[i - k]);
            }
        }
    }
}

/// Where the first `,` of an instruction's text stands.
pub open spec fn first_comma(text: Seq<char>) -> int {
    choose|k: int| is_first_comma(text, k)
}

/// The first `,` of `text` stands at position `k`.
pub open spec fn is_first_comma(text: Seq<char>, k: int) -> bool {
    &&& 0 <= k < text.len()
    &&& text[k] == ','
    &&& forall|j: int| 0 <= j < k ==> #[trigger] text[j] != ','
}

/// The instruction that a text stands for: the first character tells its
/// kind, and what follows the name holds its operands.
pub open spec fn instruction_of(text: Seq<char>) -> Instruction {
    if text.len() == 0 {
        Instruction::Match
    } else if text[0] == 'c' {
        Instruction::Char(text[5])
    } else if text[0] == 'J' {
        Instruction::Jump(value(text.skip(5)) as usize)
    } else if text[0] == 's' {
        let k = first_comma(text);
        Instruction::Split(
            value(text.subrange(6, k)) as usize,
            value(text.skip(k + 2)) as usize,
        )
    } else {
        Instruction::Match
    }
}

/// The text of an instruction stands for that instruction: reading a program
/// from its listing gives the program back.
pub proof fn lemma_text_round_trip(inst: Instruction)
    ensures
        instruction_of(inst.text()) == inst,
{
    reveal_strlit("char ");
    reveal_strlit("match");
    reveal_strlit("Jump ");
    reveal_strlit("split ");
    reveal_strlit(", ");
    let text = inst.text();
    match inst {
        Instruction::Char(c) => {
            assert(text[0] == 'c');
            assert(text[5] == c);
        },
        Instruction::Match => {
            assert(text[0] == 'm');
        },
        Instruction::Jump(addr) => {
            lemma_padded_value(addr as nat, 4);
            assert(text[0] == 'J');
            assert(text.skip(5) =~= zero_padded(addr as nat, 4));
        },
        Instruction::Split(addr1, addr2) => {
            lemma_padded_value(addr1 as nat, 4);
            lemma_padded_value(addr2 as nat, 4);
            let first = zero_padded(addr1 as nat, 4);
            let second = zero_padded(addr2 as nat, 4);
            let at: int = first.len() as int + 6;
            assert(text[0] == 's');
            assert(text[at] == ',');
            assert forall|j: int| 0 <= j < at implies #[trigger] text[j] != ',' by {
                if j >= 6 {
                    assert(text[j] == first[j - 6]);
                    assert(is_digit(first[j - 6]));
                }
            }
            assert(is_first_comma(text, at));
            let k = first_comma(text);
            assert(is_first_comma(text, k));
            assert(k == at) by {
                if k < at {
                    assert(text[k] != ',');
                } else if k > at {
                    assert(text[at] != ',');
                }
            }
            assert(text.subrange(6, k) =~= first);
            assert(text.skip(k + 2) =~= second);
        },
    }
}

/// Two instructions with the same text are the same instruction.
pub proof fn lemma_text_tells_instruction(a: Instruction, b: Instruction)
    requires
        a.text() == b.text(),
    ensures
        a == b,
{
    lemma_text_round_trip(a);
    lemma_text_round_trip(b);
}

} // verus!
