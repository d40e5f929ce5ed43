//! The depth-first strategy as a mathematical function, and the proof that on
//! well-formed programs it decides acceptance.

use super::evaluator::EvalError;
use super::machine::{
    accepts, lemma_accepts_iff_within, lemma_within_least, lemma_within_more, within,
};
use super::{well_formed, Instruction};
use vstd::prelude::*;
use vstd::set_lib::{lemma_int_range, lemma_len_subset, set_int_range};

verus! {

/// What backtracking from address `pc` at input position `sp` returns, `eps`
/// being the number of instructions executed since the last character was
/// consumed. A path that executes more instructions without consuming a
/// character than the program has is on a cycle, and is given up.
pub open spec fn depth_run(
    program: Seq<Instruction>,
    line: Seq<char>,
    pc: int,
    sp: int,
    eps: int,
) -> Result<bool, EvalError>
    decreases line.len() - sp, program.len() - eps,
{
    if !(0 <= pc < program.len()) {
        Err(EvalError::InvalidPC)
    } else {
        match program[pc] {
            Instruction::Char(c) => if 0 <= sp < line.len() && line[sp] == c {
                depth_run(program, line, pc + 1, sp + 1, 0)
            } else {
                Ok(false)
            },
            Instruction::Match => Ok(true),
            Instruction::Jump(t) => if 0 <= eps < program.len() {
                depth_run(program, line, t as int, sp, eps + 1)
            } else {
                Ok(false)
            },
            Instruction::Split(t1, t2) => if 0 <= eps < program.len() {
                match depth_run(program, line, t1 as int, sp, eps + 1) {
                    Ok(false) => depth_run(program, line, t2 as int, sp, eps + 1),
                    r => r,
                }
            } else {
                Ok(false)
            },
        }
    }
}

/// The verdict of the depth-first strategy.
pub open spec fn depth_result(program: Seq<Instruction>, line: Seq<char>) -> Result<
    bool,
    EvalError,
> {
    depth_run(program, line, 0, 0, 0)
}

/// From address `pc` at input position `sp`, `Match` can be reached in at most
/// `n` steps on a path that backtracking does not give up: `eps` instructions
/// have been executed since the last character was consumed.
pub open spec fn bounded(
    program: Seq<Instruction>,
    line: Seq<char>,
    pc: int,
    sp: int,
    eps: int,
    n: nat,
) -> bool
    decreases n,
{
    &&& 0 <= pc < program.len()
    &&& match program[pc] {
        Instruction::Match => true,
        Instruction::Char(c) => {
            &&& n > 0
            &&& 0 <= sp < line.len()
            &&& line[sp] == c
            &&& bounded(program, line, pc + 1, sp + 1, 0, (n - 1) as nat)
        },
        Instruction::Jump(t) => {
            &&& n > 0
            &&& 0 <= eps < program.len()
            &&& bounded(program, line, t as int, sp, eps + 1, (n - 1) as nat)
        },
        Instruction::Split(t1, t2) => {
            &&& n > 0
            &&& 0 <= eps < program.len()
            &&& (bounded(program, line, t1 as int, sp, eps + 1, (n - 1) as nat) || bounded(
                program,
                line,
                t2 as int,
                sp,
                eps + 1,
                (n - 1) as nat,
            ))
        },
    }
}

/// On a well-formed program backtracking never leaves the program.
pub proof fn lemma_depth_run_ok(
    program: Seq<Instruction>,
    line: Seq<char>,
    pc: int,
    sp: int,
    eps: int,
)
    requires
        well_formed(program),
        0 <= pc < program.len(),
    ensures
        depth_run(program, line, pc, sp, eps) is Ok,
    decreases line.len() - sp, program.len() - eps,
{
    let _ = program[pc];
    match program[pc] {
        Instruction::Char(c) => {
            if 0 <= sp < line.len() && line[sp] == c {
                lemma_depth_run_ok(program, line, pc + 1, sp + 1, 0);
            }
        },
        Instruction::Match => {},
        Instruction::Jump(t) => {
            if 0 <= eps < program.len() {
                lemma_depth_run_ok(program, line, t as int, sp, eps + 1);
            }
        },
        Instruction::Split(t1, t2) => {
            if 0 <= eps < program.len() {
                lemma_depth_run_ok(program, line, t1 as int, sp, eps + 1);
                lemma_depth_run_ok(program, line, t2 as int, sp, eps + 1);
            }
        },
    }
}

/// Where backtracking succeeds, there is a path to `Match`.
pub proof fn lemma_depth_run_sound(
    program: Seq<Instruction>,
    line: Seq<char>,
    pc: int,
    sp: int,
    eps: int,
) -> (n: nat)
    requires
        depth_run(program, line, pc, sp, eps) == Ok::<bool, EvalError>(true),
    ensures
        within(program, line, pc, sp, n),
    decreases line.len() - sp, program.len() - eps,
{
    match program[pc] {
        Instruction::Char(c) => {
            let m = lemma_depth_run_sound(program, line, pc + 1, sp + 1, 0);
            m + 1
        },
        Instruction::Match => 0,
        Instruction::Jump(t) => {
            let m = lemma_depth_run_sound(program, line, t as int, sp, eps + 1);
            m + 1
        },
        Instruction::Split(t1, t2) => {
            if depth_run(program, line, t1 as int, sp, eps + 1) == Ok::<bool, EvalError>(true) {
                let m = lemma_depth_run_sound(program, line, t1 as int, sp, eps + 1);
                m + 1
            } else {
                let m = lemma_depth_run_sound(program, line, t2 as int, sp, eps + 1);
                m + 1
            }
        },
    }
}

/// Where there is a path to `Match` that backtracking does not give up,
/// backtracking on a well-formed program succeeds.
pub proof fn lemma_depth_run_finds(
    program: Seq<Instruction>,
    line: Seq<char>,
    pc: int,
    sp: int,
    eps: int,
    n: nat,
)
    requires
        well_formed(program),
        bounded(program, line, pc, sp, eps, n),
    ensures
        depth_run(program, line, pc, sp, eps) == Ok::<bool, EvalError>(true),
    decreases n,
{
    let _ = program[pc];
    match program[pc] {
        Instruction::Char(c) => {
            lemma_depth_run_finds(program, line, pc + 1, sp + 1, 0, (n - 1) as nat);
        },
        Instruction::Match => {},
        Instruction::Jump(t) => {
            lemma_depth_run_finds(program, line, t as int, sp, eps + 1, (n - 1) as nat);
        },
        Instruction::Split(t1, t2) => {
            lemma_depth_run_ok(program, line, t1 as int, sp, eps + 1);
            if bounded(program, line, t1 as int, sp, eps + 1, (n - 1) as nat) {
                lemma_depth_run_finds(program, line, t1 as int, sp, eps + 1, (n - 1) as nat);
            } else {
                lemma_depth_run_finds(program, line, t2 as int, sp, eps + 1, (n - 1) as nat);
            }
        },
    }
}

/// A finite set of addresses of a program has no more members than the
/// program has instructions.
pub proof fn lemma_address_set_len(s: Set<int>, len: nat)
    requires
        forall|q: int| s.contains(q) ==> 0 <= q < len,
    ensures
        s.finite(),
        s.len() <= len,
{
    lemma_int_range(0, len as int);
    assert(s.subset_of(set_int_range(0, len as int)));
    lemma_len_subset(s, set_int_range(0, len as int));
}

/// A shortest path to `Match` visits no address twice without consuming a
/// character, so backtracking does not give it up. `seen` holds the addresses
/// visited since the last character was consumed; from each of them `Match`
/// is further away than from `pc`.
pub proof fn lemma_shortest_is_bounded(
    program: Seq<Instruction>,
    line: Seq<char>,
    pc: int,
    sp: int,
    n: nat,
    seen: Set<int>,
)
    requires
        within(program, line, pc, sp, n),
        n > 0 ==> !within(program, line, pc, sp, (n - 1) as nat),
        forall|q: int| seen.contains(q) ==> 0 <= q < program.len() && !within(program, line, q, sp, n),
    ensures
        seen.finite(),
        bounded(program, line, pc, sp, seen.len() as int, n),
    decreases n,
{
    let visited = seen.insert(pc);
    lemma_address_set_len(seen, program.len());
    lemma_address_set_len(visited, program.len());
    assert(!seen.contains(pc));
    assert(visited.len() == seen.len() + 1);
    match program[pc] {
        Instruction::Match => {},
        Instruction::Char(c) => {
            let m = (n - 1) as nat;
            if m > 0 && within(program, line, pc + 1, sp + 1, (m - 1) as nat) {
                assert(within(program, line, pc, sp, m));
            }
            lemma_shortest_is_bounded(program, line, pc + 1, sp + 1, m, Set::empty());
        },
        Instruction::Jump(t) => {
            let m = (n - 1) as nat;
            if m > 0 && within(program, line, t as int, sp, (m - 1) as nat) {
                assert(within(program, line, pc, sp, m));
            }
            assert forall|q: int| visited.contains(q) implies 0 <= q < program.len() && !within(
                program,
                line,
                q,
                sp,
                m,
            ) by {
                if q != pc && within(program, line, q, sp, m) {
                    lemma_within_more(program, line, q, sp, m);
                }
            }
            lemma_shortest_is_bounded(program, line, t as int, sp, m, visited);
        },
        Instruction::Split(t1, t2) => {
            let m = (n - 1) as nat;
            let t = if within(program, line, t1 as int, sp, m) {
                t1
            } else {
                t2
            };
            if m > 0 && within(program, line, t as int, sp, (m - 1) as nat) {
                assert(within(program, line, pc, sp, m));
            }
            assert forall|q: int| visited.contains(q) implies 0 <= q < program.len() && !within(
                program,
                line,
                q,
                sp,
                m,
            ) by {
                if q != pc && within(program, line, q, sp, m) {
                    lemma_within_more(program, line, q, sp, m);
                }
            }
            lemma_shortest_is_bounded(program, line, t as int, sp, m, visited);
        },
    }
}

/// On a well-formed program the depth-first strategy returns a verdict, and
/// the verdict is whether the program accepts the line.
pub proof fn lemma_depth_first_decides(program: Seq<Instruction>, line: Seq<char>)
    requires
        well_formed(program),
    ensures
        depth_result(program, line) == Ok::<bool, EvalError>(accepts(program, line)),
{
    lemma_depth_run_ok(program, line, 0, 0, 0);
    lemma_accepts_iff_within(program, line);
    if depth_result(program, line) == Ok::<bool, EvalError>(true) {
        let n = lemma_depth_run_sound(program, line, 0, 0, 0);
        assert(within(program, line, 0, 0, n));
        assert(accepts(program, line));
    } else if accepts(program, line) {
        let n = choose|n: nat| within(program, line, 0, 0, n);
        let m = lemma_within_least(program, line, 0, 0, n);
        lemma_shortest_is_bounded(program, line, 0, 0, m, Set::empty());
        assert(Set::<int>::empty().len() == 0);
        lemma_depth_run_finds(program, line, 0, 0, 0, m);
        assert(false);
    } else {
        assert(depth_result(program, line) is Ok);
        assert(depth_result(program, line)->Ok_0 == false);
    }
}

} // verus!
