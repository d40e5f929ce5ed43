//! What it means for a program of the matching machine to accept a line.

use super::Instruction;
use vstd::prelude::*;

verus! {

/// One candidate path through a program: the address of its next instruction
/// and the position of its next input character.
pub struct Thread {
    pub pc: int,
    pub sp: int,
}

/// `b` is what thread `a` becomes by executing the instruction at `a.pc`.
pub open spec fn steps_to(
    program: Seq<Instruction>,
    line: Seq<char>,
    a: Thread,
    b: Thread,
) -> bool {
    &&& 0 <= a.pc < program.len()
    &&& match program[a.pc] {
        Instruction::Char(c) => {
            &&& 0 <= a.sp < line.len()
            &&& line[a.sp] == c
            &&& b == Thread { pc: a.pc + 1, sp: a.sp + 1 }
        },
        Instruction::Match => false,
        Instruction::Jump(t) => b == Thread { pc: t as int, sp: a.sp },
        Instruction::Split(t1, t2) => {
            ||| b == Thread { pc: t1 as int, sp: a.sp }
            ||| b == Thread { pc: t2 as int, sp: a.sp }
        },
    }
}

/// `run` is an execution of the machine: it starts at address 0 and input
/// position 0, and each thread steps to the next one.
pub open spec fn is_run(program: Seq<Instruction>, line: Seq<char>, run: Seq<Thread>) -> bool {
    &&& run.len() > 0
    &&& run[0] == Thread { pc: 0, sp: 0 }
    &&& forall|k: int|
        0 <= k < run.len() - 1 ==> steps_to(program, line, #[trigger] run[k], run[k + 1])
}

/// Some execution of the machine ends in thread `t`.
pub open spec fn reaches(program: Seq<Instruction>, line: Seq<char>, t: Thread) -> bool {
    exists|run: Seq<Thread>| #[trigger] is_run(program, line, run) && run.last() == t
}

/// Thread `t` stands on a `Match` instruction.
pub open spec fn at_match(program: Seq<Instruction>, t: Thread) -> bool {
    0 <= t.pc < program.len() && program[t.pc] == Instruction::Match
}

/// Thread `t` stands on an address that holds no instruction.
pub open spec fn astray(program: Seq<Instruction>, t: Thread) -> bool {
    !(0 <= t.pc < program.len())
}

/// The program matches a prefix of the line: some execution reaches `Match`.
pub open spec fn accepts(program: Seq<Instruction>, line: Seq<char>) -> bool {
    exists|t: Thread| #[trigger] reaches(program, line, t) && at_match(program, t)
}

/// The thread that every execution starts with.
pub open spec fn start() -> Thread {
    Thread { pc: 0, sp: 0 }
}

/// The start thread is reached by the execution that takes no step.
pub proof fn lemma_reaches_start(program: Seq<Instruction>, line: Seq<char>)
    ensures
        reaches(program, line, start()),
{
    let run = seq![start()];
    assert(is_run(program, line, run));
    assert(run.last() == start());
}

/// A thread that a reached thread steps to is reached too.
pub proof fn lemma_reaches_step(program: Seq<Instruction>, line: Seq<char>, a: Thread, b: Thread)
    requires
        reaches(program, line, a),
        steps_to(program, line, a, b),
    ensures
        reaches(program, line, b),
{
    let run = choose|run: Seq<Thread>| #[trigger] is_run(program, line, run) && run.last() == a;
    let longer = run.push(b);
    assert forall|k: int| 0 <= k < longer.len() - 1 implies steps_to(
        program,
        line,
        #[trigger] longer[k],
        longer[k + 1],
    ) by {
        if k < run.len() - 1 {
            assert(longer[k] == run[k]);
            assert(longer[k + 1] == run[k + 1]);
        } else {
            assert(longer[k] == a);
            assert(longer[k + 1] == b);
        }
    }
    assert(longer[0] == run[0]);
    assert(is_run(program, line, longer));
    assert(longer.last() == b);
}

/// From address `pc` at input position `sp`, `Match` can be reached in at most
/// `n` steps.
pub open spec fn within(
    program: Seq<Instruction>,
    line: Seq<char>,
    pc: int,
    sp: int,
    n: nat,
) -> bool
    decreases n,
{
    &&& 0 <= pc < program.len()
    &&& match program[pc] {
        Instruction::Match => true,
        Instruction::Char(c) => {
            &&& n > 0
            &&& 0 <= sp < line.len()
            &&& line[sp] == c
            &&& within(program, line, pc + 1, sp + 1, (n - 1) as nat)
        },
        Instruction::Jump(t) => n > 0 && within(program, line, t as int, sp, (n - 1) as nat),
        Instruction::Split(t1, t2) => {
            &&& n > 0
            &&& (within(program, line, t1 as int, sp, (n - 1) as nat) || within(
                program,
                line,
                t2 as int,
                sp,
                (n - 1) as nat,
            ))
        },
    }
}

/// What can be done in `n` steps can be done in `n + 1`.
pub proof fn lemma_within_more(
    program: Seq<Instruction>,
    line: Seq<char>,
    pc: int,
    sp: int,
    n: nat,
)
    requires
        within(program, line, pc, sp, n),
    ensures
        within(program, line, pc, sp, n + 1),
    decreases n,
{
    match program[pc] {
        Instruction::Match => {},
        Instruction::Char(c) => {
            lemma_within_more(program, line, pc + 1, sp + 1, (n - 1) as nat);
        },
        Instruction::Jump(t) => {
            lemma_within_more(program, line, t as int, sp, (n - 1) as nat);
        },
        Instruction::Split(t1, t2) => {
            if within(program, line, t1 as int, sp, (n - 1) as nat) {
                lemma_within_more(program, line, t1 as int, sp, (n - 1) as nat);
            } else {
                lemma_within_more(program, line, t2 as int, sp, (n - 1) as nat);
            }
        },
    }
}

/// The least number of steps in which `Match` can be reached, given that it
/// can be reached in `n`.
pub proof fn lemma_within_least(
    program: Seq<Instruction>,
    line: Seq<char>,
    pc: int,
    sp: int,
    n: nat,
) -> (m: nat)
    requires
        within(program, line, pc, sp, n),
    ensures
        m <= n,
        within(program, line, pc, sp, m),
        m > 0 ==> !within(program, line, pc, sp, (m - 1) as nat),
    decreases n,
{
    if n > 0 && within(program, line, pc, sp, (n - 1) as nat) {
        lemma_within_least(program, line, pc, sp, (n - 1) as nat)
    } else {
        n
    }
}

/// If `Match` can be reached from a reached thread, the program accepts.
pub proof fn lemma_within_accepts(program: Seq<Instruction>, line: Seq<char>, t: Thread, n: nat)
    requires
        reaches(program, line, t),
        within(program, line, t.pc, t.sp, n),
    ensures
        accepts(program, line),
    decreases n,
{
    match program[t.pc] {
        Instruction::Match => {
            assert(at_match(program, t));
        },
        Instruction::Char(c) => {
            let u = Thread { pc: t.pc + 1, sp: t.sp + 1 };
            lemma_reaches_step(program, line, t, u);
            lemma_within_accepts(program, line, u, (n - 1) as nat);
        },
        Instruction::Jump(target) => {
            let u = Thread { pc: target as int, sp: t.sp };
            lemma_reaches_step(program, line, t, u);
            lemma_within_accepts(program, line, u, (n - 1) as nat);
        },
        Instruction::Split(t1, t2) => {
            let u = if within(program, line, t1 as int, t.sp, (n - 1) as nat) {
                Thread { pc: t1 as int, sp: t.sp }
            } else {
                Thread { pc: t2 as int, sp: t.sp }
            };
            lemma_reaches_step(program, line, t, u);
            lemma_within_accepts(program, line, u, (n - 1) as nat);
        },
    }
}

/// In an execution that ends on `Match`, `Match` is reached from the `k`-th
/// thread in the number of steps that are left.
pub proof fn lemma_run_within(program: Seq<Instruction>, line: Seq<char>, run: Seq<Thread>, k: int)
    requires
        is_run(program, line, run),
        at_match(program, run.last()),
        0 <= k < run.len(),
    ensures
        within(program, line, run[k].pc, run[k].sp, (run.len() - 1 - k) as nat),
    decreases run.len() - k,
{
    if k < run.len() - 1 {
        lemma_run_within(program, line, run, k + 1);
        assert(steps_to(program, line, run[k], run[k + 1]));
    }
}

/// A program accepts exactly when `Match` can be reached from the start in
/// some number of steps.
pub proof fn lemma_accepts_iff_within(program: Seq<Instruction>, line: Seq<char>)
    ensures
        accepts(program, line) <==> exists|n: nat| within(program, line, 0, 0, n),
{
    if accepts(program, line) {
        let t = choose|t: Thread| #[trigger] reaches(program, line, t) && at_match(program, t);
        let run = choose|run: Seq<Thread>| #[trigger]
            is_run(program, line, run) && run.last() == t;
        lemma_run_within(program, line, run, 0);
        assert(within(program, line, 0, 0, (run.len() - 1) as nat));
    }
    if exists|n: nat| within(program, line, 0, 0, n) {
        let n = choose|n: nat| within(program, line, 0, 0, n);
        lemma_reaches_start(program, line);
        lemma_within_accepts(program, line, start(), n);
    }
}

} // verus!
