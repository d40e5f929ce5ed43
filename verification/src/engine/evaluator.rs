//! Evaluator: runs a program of the matching machine against an input line,
//! either by backtracking or by advancing all candidate paths in step.

use super::depth_first::{depth_result, depth_run, lemma_depth_first_decides};
use super::machine::{accepts, astray, at_match, is_run, lemma_reaches_step, reaches, Thread};
use super::width_first::{
    consumes, expanded, holds, is_seed, lemma_add_thread, lemma_closure_complete,
    lemma_expanded_grows, lemma_holds_grows, lemma_seed_reaches, lemma_width_first_decides,
    lemma_width_run_over, matches_at, strays_at, threads_ok, unmarked, width_result, width_run,
};
use super::{well_formed, Instruction};
use vstd::prelude::*;

verus! {

/// Why a program could not be run to a verdict.
#[derive(Debug, Clone, Copy, PartialEq, Eq, Structural)]
pub enum EvalError {
    /// A program counter could not be advanced.
    PCOverFlow,
    /// An input cursor could not be advanced.
    SPOverFlow,
    /// A path reached an address that holds no instruction.
    InvalidPC,
}

/// Backtracking from address `pc` at input position `sp`: the first target of a
/// split is tried first, the second only if the first fails.
fn eval_depth(inst: &[Instruction], line: &[char], pc: usize, sp: usize, eps: usize) -> (r: Result<
    bool,
    EvalError,
>)
    requires
        sp <= line@.len(),
        eps <= inst@.len(),
    ensures
        r == depth_run(inst@, line@, pc as int, sp as int, eps as int),
    decreases line@.len() - sp, inst@.len() - eps, 1nat,
{
    let mut cur_pc = pc;
    let mut cur_sp = sp;
    let mut cur_eps = eps;
    loop
        invariant
            cur_sp <= line@.len(),
            cur_eps <= inst@.len(),
            cur_sp > sp || (cur_sp == sp && cur_eps >= eps),
            depth_run(inst@, line@, pc as int, sp as int, eps as int) == depth_run(
                inst@,
                line@,
                cur_pc as int,
                cur_sp as int,
                cur_eps as int,
            ),
        decreases line@.len() - cur_sp, inst@.len() - cur_eps,
    {
        if cur_pc >= inst.len() {
            return Err(EvalError::InvalidPC);
        }
        match inst[cur_pc] {
            Instruction::Char(c) => {
                if cur_sp < line.len() && line[cur_sp] == c {
                    cur_pc = match cur_pc.checked_add(1) {
                        Some(next) => next,
                        None => {
                            return Err(EvalError::PCOverFlow);
                        },
                    };
                    cur_sp = match cur_sp.checked_add(1) {
                        Some(next) => next,
                        None => {
                            return Err(EvalError::SPOverFlow);
                        },
                    };
                    cur_eps = 0;
                } else {
                    return Ok(false);
                }
            },
            Instruction::Match => {
                return Ok(true);
            },
            Instruction::Jump(addr) => {
                if cur_eps >= inst.len() {
                    return Ok(false);
                }
                cur_pc = addr;
                cur_eps = cur_eps + 1;
            },
            Instruction::Split(addr1, addr2) => {
                if cur_eps >= inst.len() {
                    return Ok(false);
                }
                if eval_depth(inst, line, addr1, cur_sp, cur_eps + 1)? {
                    return Ok(true);
                }
                cur_pc = addr2;
                cur_eps = cur_eps + 1;
            },
        }
    }
}

/// A mark for each of `n` addresses, none of them set.
fn fresh_marks(n: usize) -> (marked: Vec<bool>)
    ensures
        marked@.len() == n,
        unmarked(marked@) == n,
        forall|i: int| 0 <= i < n ==> !marked@[i],
{
    let mut marked: Vec<bool> = Vec::new();
    while marked.len() < n
        invariant
            marked@.len() <= n,
            unmarked(marked@) == marked@.len(),
            forall|i: int| 0 <= i < marked@.len() ==> !marked@[i],
        decreases n - marked@.len(),
    {
        let ghost before = marked@;
        marked.push(false);
        proof {
            assert(marked@.drop_last() =~= before);
        }
    }
    marked
}

/// Adds address `pc` to the threads of the current input position, unless it
/// is among them already.
fn add_thread(list: &mut Vec<usize>, marked: &mut Vec<bool>, pc: usize) -> (r: Result<
    (),
    EvalError,
>)
    ensures
        match r {
            Ok(()) => {
                &&& pc < old(marked)@.len()
                &&& old(marked)@[pc as int] ==> final(marked)@ == old(marked)@ && final(list)@
                    == old(list)@
                &&& !old(marked)@[pc as int] ==> final(marked)@ == old(marked)@.update(
                    pc as int,
                    true,
                ) && final(list)@ == old(list)@.push(pc)
            },
            Err(e) => {
                &&& e == EvalError::InvalidPC
                &&& pc >= old(marked)@.len()
                &&& final(marked)@ == old(marked)@
                &&& final(list)@ == old(list)@
            },
        },
{
    if pc >= marked.len() {
        return Err(EvalError::InvalidPC);
    }
    if !marked[pc] {
        marked.set(pc, true);
        list.push(pc);
    }
    Ok(())
}

/// Advances all threads over input position `sp`. `seeds` holds the addresses
/// at which threads enter the position. The result tells whether one of the
/// threads at this position stands on `Match`, and holds the addresses at
/// which threads enter the next position, no more of them than the program
/// has instructions.
fn advance(inst: &[Instruction], line: &[char], sp: usize, seeds: &Vec<usize>) -> (r: Result<
    (bool, Vec<usize>),
    EvalError,
>)
    requires
        sp <= line@.len(),
        forall|pc: int| is_seed(inst@, line@, pc, sp as int) <==> holds(seeds@, pc),
    ensures
        match r {
            Ok((matched, next)) => {
                &&& !strays_at(inst@, line@, sp as int)
                &&& matched == matches_at(inst@, line@, sp as int)
                &&& forall|pc: int| is_seed(inst@, line@, pc, sp + 1) <==> holds(next@, pc)
                &&& next@.len() <= inst@.len()
            },
            Err(e) => e == EvalError::InvalidPC && strays_at(inst@, line@, sp as int),
        },
{
    let n = inst.len();
    let mut marked = fresh_marks(n);
    let mut list: Vec<usize> = Vec::new();
    assert(threads_ok(inst@, line@, sp as int, marked@, list@));

    // the threads that enter this position
    let mut j: usize = 0;
    while j < seeds.len()
        invariant
            j <= seeds@.len(),
            forall|pc: int| is_seed(inst@, line@, pc, sp as int) <==> holds(seeds@, pc),
            threads_ok(inst@, line@, sp as int, marked@, list@),
            forall|i: int| 0 <= i < j ==> holds(list@, #[trigger] seeds@[i] as int),
        decreases seeds@.len() - j,
    {
        let pc = seeds[j];
        let ghost marked0 = marked@;
        let ghost list0 = list@;
        proof {
            assert(holds(seeds@, pc as int));
            lemma_seed_reaches(inst@, line@, pc as int, sp as int);
        }
        match add_thread(&mut list, &mut marked, pc) {
            Ok(()) => {},
            Err(e) => {
                proof {
                    assert(astray(inst@, Thread { pc: pc as int, sp: sp as int }));
                }
                return Err(e);
            },
        }
        proof {
            lemma_add_thread(inst@, line@, sp as int, marked0, list0, pc, marked@, list@);
            assert forall|i: int| 0 <= i < j + 1 implies holds(
                list@,
                #[trigger] seeds@[i] as int,
            ) by {
                if i < j {
                    lemma_holds_grows(list0, list@, seeds@[i] as int);
                }
            }
        }
        j += 1;
    }
    proof {
        assert forall|pc: int| is_seed(inst@, line@, pc, sp as int) implies holds(list@, pc) by {
            assert(holds(seeds@, pc));
            let i = choose|i: int| 0 <= i < seeds@.len() && #[trigger] seeds@[i] == pc;
            assert(holds(list@, seeds@[i] as int));
        }
    }

    // what each thread leads to
    let mut next: Vec<usize> = Vec::new();
    let mut matched = false;
    let mut k: usize = 0;
    while k < list.len()
        invariant
            n == inst@.len(),
            sp <= line@.len(),
            k <= list@.len(),
            next@.len() <= k,
            threads_ok(inst@, line@, sp as int, marked@, list@),
            forall|pc: int| is_seed(inst@, line@, pc, sp as int) ==> holds(list@, pc),
            forall|i: int|
                0 <= i < k ==> expanded(
                    inst@,
                    line@,
                    sp as int,
                    #[trigger] list@[i] as int,
                    list@,
                    next@,
                    matched,
                ),
            forall|i: int| 0 <= i < next@.len() ==> is_seed(inst@, line@, #[trigger] next@[i] as int, sp + 1),
            matched ==> matches_at(inst@, line@, sp as int),
        decreases n - k,
    {
        let pc = list[k];
        let ghost marked0 = marked@;
        let ghost list0 = list@;
        let ghost next0 = next@;
        let ghost matched0 = matched;
        let ghost here = Thread { pc: pc as int, sp: sp as int };
        assert(reaches(inst@, line@, here));
        match inst[pc] {
            Instruction::Char(c) => {
                if sp < line.len() && line[sp] == c {
                    let after = match pc.checked_add(1) {
                        Some(after) => after,
                        None => {
                            return Err(EvalError::PCOverFlow);
                        },
                    };
                    next.push(after);
                    proof {
                        assert(consumes(inst@, line@, pc as int, sp + 1 - 1));
                        assert(here == Thread { pc: pc as int, sp: sp + 1 - 1 });
                        assert(is_seed(inst@, line@, after as int, sp + 1));
                        assert(next@[next0.len() as int] == after);
                    }
                }
            },
            Instruction::Match => {
                matched = true;
                proof {
                    assert(at_match(inst@, here));
                }
            },
            Instruction::Jump(addr) => {
                proof {
                    lemma_reaches_step(
                        inst@,
                        line@,
                        here,
                        Thread { pc: addr as int, sp: sp as int },
                    );
                }
                match add_thread(&mut list, &mut marked, addr) {
                    Ok(()) => {},
                    Err(e) => {
                        proof {
                            assert(astray(inst@, Thread { pc: addr as int, sp: sp as int }));
                        }
                        return Err(e);
                    },
                }
                proof {
                    lemma_add_thread(inst@, line@, sp as int, marked0, list0, addr, marked@, list@);
                }
            },
            Instruction::Split(addr1, addr2) => {
                proof {
                    lemma_reaches_step(
                        inst@,
                        line@,
                        here,
                        Thread { pc: addr1 as int, sp: sp as int },
                    );
                    lemma_reaches_step(
                        inst@,
                        line@,
                        here,
                        Thread { pc: addr2 as int, sp: sp as int },
                    );
                }
                match add_thread(&mut list, &mut marked, addr1) {
                    Ok(()) => {},
                    Err(e) => {
                        proof {
                            assert(astray(inst@, Thread { pc: addr1 as int, sp: sp as int }));
                        }
                        return Err(e);
                    },
                }
                let ghost marked1 = marked@;
                let ghost list1 = list@;
                proof {
                    lemma_add_thread(
                        inst@,
                        line@,
                        sp as int,
                        marked0,
                        list0,
                        addr1,
                        marked1,
                        list1,
                    );
                }
                match add_thread(&mut list, &mut marked, addr2) {
                    Ok(()) => {},
                    Err(e) => {
                        proof {
                            assert(astray(inst@, Thread { pc: addr2 as int, sp: sp as int }));
                        }
                        return Err(e);
                    },
                }
                proof {
                    lemma_add_thread(
                        inst@,
                        line@,
                        sp as int,
                        marked1,
                        list1,
                        addr2,
                        marked@,
                        list@,
                    );
                    lemma_holds_grows(list1, list@, addr1 as int);
                }
            },
        }
        proof {
            assert(list0.is_prefix_of(list@));
            assert(next0.is_prefix_of(next@));
            assert(list@[k as int] == pc);
            assert forall|pc: int| is_seed(inst@, line@, pc, sp as int) implies holds(
                list@,
                pc,
            ) by {
                lemma_holds_grows(list0, list@, pc);
            }
            assert forall|i: int| 0 <= i < k + 1 implies expanded(
                inst@,
                line@,
                sp as int,
                #[trigger] list@[i] as int,
                list@,
                next@,
                matched,
            ) by {
                assert(list@[i] == list0[i]);
                if i < k {
                    lemma_expanded_grows(
                        inst@,
                        line@,
                        sp as int,
                        list0[i] as int,
                        list0,
                        next0,
                        matched0,
                        list@,
                        next@,
                        matched,
                    );
                }
            }
            assert forall|i: int| 0 <= i < next@.len() implies is_seed(
                inst@,
                line@,
                #[trigger] next@[i] as int,
                sp + 1,
            ) by {
                if i < next0.len() {
                    assert(next@[i] == next0[i]);
                }
            }
        }
        k += 1;
    }
    proof {
        // every thread at this position is in the list
        assert forall|pc: int| #[trigger]
            reaches(inst@, line@, Thread { pc, sp: sp as int }) implies holds(list@, pc) by {
            let t = Thread { pc, sp: sp as int };
            let run = choose|run: Seq<Thread>| #[trigger]
                is_run(inst@, line@, run) && run.last() == t;
            lemma_closure_complete(inst@, line@, sp as int, list@, next@, matched, run);
        }
        assert(!strays_at(inst@, line@, sp as int)) by {
            if strays_at(inst@, line@, sp as int) {
                let pc = choose|pc: int| #[trigger]
                    reaches(inst@, line@, Thread { pc, sp: sp as int }) && astray(
                        inst@,
                        Thread { pc, sp: sp as int },
                    );
                assert(holds(list@, pc));
            }
        }
        if matches_at(inst@, line@, sp as int) {
            let pc = choose|pc: int| #[trigger]
                reaches(inst@, line@, Thread { pc, sp: sp as int }) && at_match(
                    inst@,
                    Thread { pc, sp: sp as int },
                );
            assert(holds(list@, pc));
            let i = choose|i: int| 0 <= i < list@.len() && #[trigger] list@[i] == pc;
            assert(expanded(inst@, line@, sp as int, list@[i] as int, list@, next@, matched));
        }
        assert forall|pc: int| is_seed(inst@, line@, pc, sp + 1) implies holds(next@, pc) by {
            let q = choose|q: int|
                {
                    &&& #[trigger] consumes(inst@, line@, q, sp + 1 - 1)
                    &&& reaches(inst@, line@, Thread { pc: q, sp: sp + 1 - 1 })
                    &&& pc == q + 1
                };
            assert(holds(list@, q));
            let i = choose|i: int| 0 <= i < list@.len() && #[trigger] list@[i] == q;
            assert(expanded(inst@, line@, sp as int, list@[i] as int, list@, next@, matched));
        }
        assert forall|pc: int| holds(next@, pc) implies is_seed(inst@, line@, pc, sp + 1) by {
            let i = choose|i: int| 0 <= i < next@.len() && #[trigger] next@[i] == pc;
            assert(is_seed(inst@, line@, next@[i] as int, sp + 1));
        }
    }
    Ok((matched, next))
}

/// Advancing all threads in step, one input position after the other.
fn eval_width(inst: &[Instruction], line: &[char]) -> (r: Result<bool, EvalError>)
    ensures
        r == width_result(inst@, line@),
{
    let mut current: Vec<usize> = Vec::new();
    current.push(0);
    let mut sp: usize = 0;
    proof {
        assert(current@[0] == 0);
        assert forall|pc: int| is_seed(inst@, line@, pc, 0) implies holds(current@, pc) by {
            if !(pc == 0) {
                let q = choose|q: int| #[trigger] consumes(inst@, line@, q, 0 - 1);
            }
        }
    }
    loop
        invariant
            sp <= line@.len(),
            forall|pc: int| is_seed(inst@, line@, pc, sp as int) <==> holds(current@, pc),
            width_result(inst@, line@) == width_run(inst@, line@, sp as int),
        decreases line@.len() - sp,
    {
        let (matched, next) = advance(inst, line, sp, &current)?;
        if matched {
            return Ok(true);
        }
        if sp >= line.len() || next.len() == 0 {
            proof {
                if sp < line@.len() {
                    let after: int = sp + 1;
                    assert forall|pc: int| !#[trigger] is_seed(inst@, line@, pc, after) by {
                        if holds(next@, pc) {
                            let k = choose|k: int| 0 <= k < next@.len() && #[trigger] next@[k] == pc;
                        }
                    }
                    lemma_width_run_over(inst@, line@, after, after);
                }
            }
            return Ok(false);
        }
        current = next;
        sp = sp + 1;
    }
}

/// Runs a program against a line, from the line's first character, and tells
/// whether the program matches a prefix of the line.
///
/// `is_depth` selects the strategy: backtracking, or advancing all candidate
/// paths in step. A program that ends in `Match` and jumps only to its own
/// instructions gets a verdict, the same under both strategies.
pub fn eval(inst: &[Instruction], line: &[char], is_depth: bool) -> (r: Result<bool, EvalError>)
    ensures
        r == eval_result(inst@, line@, is_depth),
        well_formed(inst@) ==> r == Ok::<bool, EvalError>(accepts(inst@, line@)),
{
    proof {
        if well_formed(inst@) {
            lemma_depth_first_decides(inst@, line@);
            lemma_width_first_decides(inst@, line@);
        }
    }
    if is_depth {
        eval_depth(inst, line, 0, 0, 0)
    } else {
        eval_width(inst, line)
    }
}

/// The verdict of the chosen strategy.
pub open spec fn eval_result(program: Seq<Instruction>, line: Seq<char>, is_depth: bool) -> Result<
    bool,
    EvalError,
> {
    if is_depth {
        depth_result(program, line)
    } else {
        width_result(program, line)
    }
}

} // verus!
