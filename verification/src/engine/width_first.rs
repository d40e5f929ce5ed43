//! The width-first strategy as a mathematical function, and the proof that on
//! well-formed programs it decides acceptance.

use super::evaluator::EvalError;
use super::machine::{
    accepts, astray, at_match, is_run, lemma_reaches_start, lemma_reaches_step, reaches, start,
    steps_to, Thread,
};
use super::{well_formed, Instruction};
use vstd::prelude::*;

verus! {

/// Some thread at input position `sp` has left the program.
pub open spec fn strays_at(program: Seq<Instruction>, line: Seq<char>, sp: int) -> bool {
    exists|pc: int| #[trigger]
        reaches(program, line, Thread { pc, sp }) && astray(program, Thread { pc, sp })
}

/// Some thread at input position `sp` stands on `Match`.
pub open spec fn matches_at(program: Seq<Instruction>, line: Seq<char>, sp: int) -> bool {
    exists|pc: int| #[trigger]
        reaches(program, line, Thread { pc, sp }) && at_match(program, Thread { pc, sp })
}

/// What advancing all threads in step returns, once the threads at the input
/// positions before `sp` have neither left the program nor matched: the first
/// position at which a thread leaves the program or matches decides, and a
/// thread that leaves the program takes precedence there.
pub open spec fn width_run(program: Seq<Instruction>, line: Seq<char>, sp: int) -> Result<
    bool,
    EvalError,
>
    decreases line.len() - sp,
{
    if strays_at(program, line, sp) {
        Err(EvalError::InvalidPC)
    } else if matches_at(program, line, sp) {
        Ok(true)
    } else if 0 <= sp < line.len() {
        width_run(program, line, sp + 1)
    } else {
        Ok(false)
    }
}

/// The verdict of the width-first strategy.
pub open spec fn width_result(program: Seq<Instruction>, line: Seq<char>) -> Result<
    bool,
    EvalError,
> {
    width_run(program, line, 0)
}

/// The first `k + 1` threads of an execution are an execution.
pub proof fn lemma_run_prefix(program: Seq<Instruction>, line: Seq<char>, run: Seq<Thread>, k: int)
    requires
        is_run(program, line, run),
        0 <= k < run.len(),
    ensures
        is_run(program, line, run.take(k + 1)),
        run.take(k + 1).last() == run[k],
        reaches(program, line, run[k]),
{
    let prefix = run.take(k + 1);
    assert forall|j: int| 0 <= j < prefix.len() - 1 implies steps_to(
        program,
        line,
        #[trigger] prefix[j],
        prefix[j + 1],
    ) by {
        assert(prefix[j] == run[j]);
        assert(prefix[j + 1] == run[j + 1]);
    }
    assert(prefix[0] == run[0]);
    assert(is_run(program, line, prefix));
}

/// No thread of an execution is before the line's start or past its end.
pub proof fn lemma_run_on_line(program: Seq<Instruction>, line: Seq<char>, run: Seq<Thread>, k: int)
    requires
        is_run(program, line, run),
        0 <= k < run.len(),
    ensures
        0 <= run[k].sp <= line.len(),
    decreases k,
{
    if k > 0 {
        lemma_run_on_line(program, line, run, k - 1);
        assert(steps_to(program, line, run[k - 1], run[k]));
    }
}

/// No thread of an execution of a well-formed program leaves the program.
pub proof fn lemma_run_in_program(
    program: Seq<Instruction>,
    line: Seq<char>,
    run: Seq<Thread>,
    k: int,
)
    requires
        well_formed(program),
        is_run(program, line, run),
        0 <= k < run.len(),
    ensures
        0 <= run[k].pc < program.len(),
    decreases k,
{
    if k > 0 {
        lemma_run_in_program(program, line, run, k - 1);
        assert(steps_to(program, line, run[k - 1], run[k]));
        let _ = program[run[k - 1].pc];
    }
}

/// A reached thread is on the line, and in the program if that is well formed.
pub proof fn lemma_reached_in_bounds(program: Seq<Instruction>, line: Seq<char>, t: Thread)
    requires
        reaches(program, line, t),
    ensures
        0 <= t.sp <= line.len(),
        well_formed(program) ==> !astray(program, t),
{
    let run = choose|run: Seq<Thread>| #[trigger] is_run(program, line, run) && run.last() == t;
    lemma_run_on_line(program, line, run, run.len() - 1);
    if well_formed(program) {
        lemma_run_in_program(program, line, run, run.len() - 1);
    }
}

/// On a well-formed program, advancing from position `sp` finds a match
/// exactly when some thread at position `sp` or later stands on `Match`.
pub proof fn lemma_width_run_scans(program: Seq<Instruction>, line: Seq<char>, sp: int)
    requires
        well_formed(program),
        0 <= sp <= line.len(),
    ensures
        width_run(program, line, sp) == Ok::<bool, EvalError>(
            exists|k: int| sp <= k && #[trigger] matches_at(program, line, k),
        ),
    decreases line.len() - sp,
{
    assert(!strays_at(program, line, sp)) by {
        if strays_at(program, line, sp) {
            let pc = choose|pc: int| #[trigger]
                reaches(program, line, Thread { pc, sp }) && astray(program, Thread { pc, sp });
            lemma_reached_in_bounds(program, line, Thread { pc, sp });
        }
    }
    if matches_at(program, line, sp) {
    } else if sp < line.len() {
        lemma_width_run_scans(program, line, sp + 1);
        if exists|k: int| sp <= k && #[trigger] matches_at(program, line, k) {
            let k = choose|k: int| sp <= k && #[trigger] matches_at(program, line, k);
            assert(sp + 1 <= k && matches_at(program, line, k));
        }
    } else {
        if exists|k: int| sp <= k && #[trigger] matches_at(program, line, k) {
            let k = choose|k: int| sp <= k && #[trigger] matches_at(program, line, k);
            let pc = choose|pc: int| #[trigger]
                reaches(program, line, Thread { pc, sp: k }) && at_match(
                    program,
                    Thread { pc, sp: k },
                );
            lemma_reached_in_bounds(program, line, Thread { pc, sp: k });
        }
    }
}

/// On a well-formed program the width-first strategy returns a verdict, and
/// the verdict is whether the program accepts the line.
pub proof fn lemma_width_first_decides(program: Seq<Instruction>, line: Seq<char>)
    requires
        well_formed(program),
    ensures
        width_result(program, line) == Ok::<bool, EvalError>(accepts(program, line)),
{
    lemma_width_run_scans(program, line, 0);
    if accepts(program, line) {
        let t = choose|t: Thread| #[trigger] reaches(program, line, t) && at_match(program, t);
        lemma_reached_in_bounds(program, line, t);
        assert(t == Thread { pc: t.pc, sp: t.sp });
        assert(matches_at(program, line, t.sp));
    }
    if exists|k: int| 0 <= k && #[trigger] matches_at(program, line, k) {
        let k = choose|k: int| 0 <= k && #[trigger] matches_at(program, line, k);
        let pc = choose|pc: int| #[trigger]
            reaches(program, line, Thread { pc, sp: k }) && at_match(program, Thread { pc, sp: k });
        assert(accepts(program, line));
    }
}

/// Address `pc` is in the list.
pub open spec fn holds(list: Seq<usize>, pc: int) -> bool {
    exists|k: int| 0 <= k < list.len() && #[trigger] list[k] == pc
}

/// The instruction at address `q` consumes the character at position `sp`.
pub open spec fn consumes(program: Seq<Instruction>, line: Seq<char>, q: int, sp: int) -> bool {
    &&& 0 <= q < program.len()
    &&& 0 <= sp < line.len()
    &&& program[q] == Instruction::Char(line[sp])
}

/// A thread enters input position `sp` at address `pc`: it is the start
/// thread, or it has just consumed the character before `sp`.
pub open spec fn is_seed(program: Seq<Instruction>, line: Seq<char>, pc: int, sp: int) -> bool {
    ||| sp == 0 && pc == 0
    ||| exists|q: int|
        {
            &&& #[trigger] consumes(program, line, q, sp - 1)
            &&& reaches(program, line, Thread { pc: q, sp: sp - 1 })
            &&& pc == q + 1
        }
}

/// Everything that the instruction at `pc` leads to at position `sp` has been
/// noted: targets in `list`, a consumed character in `next`, `Match` in
/// `matched`.
pub open spec fn expanded(
    program: Seq<Instruction>,
    line: Seq<char>,
    sp: int,
    pc: int,
    list: Seq<usize>,
    next: Seq<usize>,
    matched: bool,
) -> bool {
    &&& 0 <= pc < program.len()
    &&& match program[pc] {
        Instruction::Char(c) => consumes(program, line, pc, sp) ==> holds(next, pc + 1),
        Instruction::Match => matched,
        Instruction::Jump(t) => holds(list, t as int),
        Instruction::Split(t1, t2) => holds(list, t1 as int) && holds(list, t2 as int),
    }
}

/// Number of addresses that are not marked.
pub open spec fn unmarked(marked: Seq<bool>) -> nat
    decreases marked.len(),
{
    if marked.len() == 0 {
        0
    } else {
        unmarked(marked.drop_last()) + if marked.last() {
            0nat
        } else {
            1nat
        }
    }
}

/// Marking an address leaves one fewer unmarked.
pub proof fn lemma_mark(marked: Seq<bool>, i: int)
    requires
        0 <= i < marked.len(),
        !marked[i],
    ensures
        unmarked(marked.update(i, true)) + 1 == unmarked(marked),
    decreases marked.len(),
{
    let after = marked.update(i, true);
    if i == marked.len() - 1 {
        assert(after.drop_last() =~= marked.drop_last());
    } else {
        lemma_mark(marked.drop_last(), i);
        assert(after.drop_last() =~= marked.drop_last().update(i, true));
    }
}

/// `marked` and `list` describe the same set of addresses of the program,
/// each of them the address of a thread at input position `sp`.
pub open spec fn threads_ok(
    program: Seq<Instruction>,
    line: Seq<char>,
    sp: int,
    marked: Seq<bool>,
    list: Seq<usize>,
) -> bool {
    &&& marked.len() == program.len()
    &&& list.len() + unmarked(marked) == program.len()
    &&& forall|pc: int| 0 <= pc < marked.len() ==> (#[trigger] marked[pc] <==> holds(list, pc))
    &&& forall|k: int|
        0 <= k < list.len() ==> {
            &&& #[trigger] list[k] < program.len()
            &&& reaches(program, line, Thread { pc: list[k] as int, sp })
        }
}

/// An address that is in a list is in every list that starts with it.
pub proof fn lemma_holds_grows(list: Seq<usize>, longer: Seq<usize>, pc: int)
    requires
        list.is_prefix_of(longer),
        holds(list, pc),
    ensures
        holds(longer, pc),
{
    let k = choose|k: int| 0 <= k < list.len() && #[trigger] list[k] == pc;
    assert(longer[k] == pc);
}

/// What has been noted stays noted when the lists grow.
pub proof fn lemma_expanded_grows(
    program: Seq<Instruction>,
    line: Seq<char>,
    sp: int,
    pc: int,
    list: Seq<usize>,
    next: Seq<usize>,
    matched: bool,
    list2: Seq<usize>,
    next2: Seq<usize>,
    matched2: bool,
)
    requires
        expanded(program, line, sp, pc, list, next, matched),
        list.is_prefix_of(list2),
        next.is_prefix_of(next2),
        matched ==> matched2,
    ensures
        expanded(program, line, sp, pc, list2, next2, matched2),
{
    match program[pc] {
        Instruction::Char(c) => {
            if consumes(program, line, pc, sp) {
                lemma_holds_grows(next, next2, pc + 1);
            }
        },
        Instruction::Match => {},
        Instruction::Jump(t) => {
            lemma_holds_grows(list, list2, t as int);
        },
        Instruction::Split(t1, t2) => {
            lemma_holds_grows(list, list2, t1 as int);
            lemma_holds_grows(list, list2, t2 as int);
        },
    }
}

/// Adding the address of a thread at position `sp`, unless it is marked
/// already, keeps the marks and the list in agreement.
pub proof fn lemma_add_thread(
    program: Seq<Instruction>,
    line: Seq<char>,
    sp: int,
    marked: Seq<bool>,
    list: Seq<usize>,
    pc: usize,
    marked2: Seq<bool>,
    list2: Seq<usize>,
)
    requires
        threads_ok(program, line, sp, marked, list),
        pc < program.len(),
        reaches(program, line, Thread { pc: pc as int, sp }),
        marked[pc as int] ==> marked2 == marked && list2 == list,
        !marked[pc as int] ==> marked2 == marked.update(pc as int, true) && list2 == list.push(pc),
    ensures
        threads_ok(program, line, sp, marked2, list2),
        list.is_prefix_of(list2),
        holds(list2, pc as int),
{
    if marked[pc as int] {
    } else {
        lemma_mark(marked, pc as int);
        assert(list2[list.len() as int] == pc);
        assert forall|q: int| 0 <= q < marked2.len() implies (#[trigger] marked2[q] <==> holds(
            list2,
            q,
        )) by {
            if q == pc {
            } else if marked[q] {
                lemma_holds_grows(list, list2, q);
            } else if holds(list2, q) {
                let k = choose|k: int| 0 <= k < list2.len() && #[trigger] list2[k] == q;
                assert(list[k] == q);
            }
        }
        assert forall|k: int| 0 <= k < list2.len() implies {
            &&& #[trigger] list2[k] < program.len()
            &&& reaches(program, line, Thread { pc: list2[k] as int, sp })
        } by {
            if k < list.len() {
                assert(list2[k] == list[k]);
            }
        }
    }
}

/// A thread that enters a position is reached.
pub proof fn lemma_seed_reaches(program: Seq<Instruction>, line: Seq<char>, pc: int, sp: int)
    requires
        is_seed(program, line, pc, sp),
    ensures
        reaches(program, line, Thread { pc, sp }),
{
    if sp == 0 && pc == 0 {
        lemma_reaches_start(program, line);
    } else {
        let q = choose|q: int|
            {
                &&& #[trigger] consumes(program, line, q, sp - 1)
                &&& reaches(program, line, Thread { pc: q, sp: sp - 1 })
                &&& pc == q + 1
            };
        lemma_reaches_step(program, line, Thread { pc: q, sp: sp - 1 }, Thread { pc, sp });
    }
}

/// A list that holds the threads that enter position `sp`, and with each
/// address what its instruction leads to, holds every thread at position `sp`.
pub proof fn lemma_closure_complete(
    program: Seq<Instruction>,
    line: Seq<char>,
    sp: int,
    list: Seq<usize>,
    next: Seq<usize>,
    matched: bool,
    run: Seq<Thread>,
)
    requires
        is_run(program, line, run),
        run.last().sp == sp,
        forall|pc: int| is_seed(program, line, pc, sp) ==> holds(list, pc),
        forall|k: int|
            0 <= k < list.len() ==> expanded(
                program,
                line,
                sp,
                #[trigger] list[k] as int,
                list,
                next,
                matched,
            ),
    ensures
        holds(list, run.last().pc),
    decreases run.len(),
{
    let last = run.last();
    if run.len() == 1 {
        assert(is_seed(program, line, last.pc, sp));
    } else {
        let prev = run[run.len() - 2];
        assert(steps_to(program, line, prev, run[run.len() - 2 + 1]));
        lemma_run_prefix(program, line, run, run.len() - 2);
        match program[prev.pc] {
            Instruction::Char(c) => {
                assert(consumes(program, line, prev.pc, sp - 1));
                assert(prev == Thread { pc: prev.pc, sp: sp - 1 });
                assert(is_seed(program, line, last.pc, sp));
            },
            _ => {
                lemma_closure_complete(
                    program,
                    line,
                    sp,
                    list,
                    next,
                    matched,
                    run.take(run.len() - 1),
                );
                let k = choose|k: int| 0 <= k < list.len() && #[trigger] list[k] == prev.pc;
                assert(expanded(program, line, sp, list[k] as int, list, next, matched));
            },
        }
    }
}

/// Where no thread enters input position `sp`, no thread of an execution is
/// at that position or behind it.
pub proof fn lemma_run_stays_before(
    program: Seq<Instruction>,
    line: Seq<char>,
    sp: int,
    run: Seq<Thread>,
    k: int,
)
    requires
        sp >= 1,
        forall|pc: int| !is_seed(program, line, pc, sp),
        is_run(program, line, run),
        0 <= k < run.len(),
    ensures
        run[k].sp < sp,
    decreases k,
{
    if k > 0 {
        lemma_run_stays_before(program, line, sp, run, k - 1);
        lemma_run_prefix(program, line, run, k - 1);
        let prev = run[k - 1];
        assert(steps_to(program, line, prev, run[k - 1 + 1]));
        if run[k].sp == sp {
            assert(consumes(program, line, prev.pc, sp - 1));
            assert(prev == Thread { pc: prev.pc, sp: sp - 1 });
            assert(is_seed(program, line, run[k].pc, sp));
        }
    }
}

/// Where no thread enters input position `sp`, advancing from there on finds
/// neither a thread that has left the program nor a match.
pub proof fn lemma_width_run_over(program: Seq<Instruction>, line: Seq<char>, sp: int, k: int)
    requires
        sp >= 1,
        forall|pc: int| !is_seed(program, line, pc, sp),
        sp <= k,
    ensures
        width_run(program, line, k) == Ok::<bool, EvalError>(false),
    decreases line.len() - k,
{
    assert forall|pc: int| !#[trigger] reaches(program, line, Thread { pc, sp: k }) by {
        if reaches(program, line, Thread { pc, sp: k }) {
            let run = choose|run: Seq<Thread>| #[trigger]
                is_run(program, line, run) && run.last() == (Thread { pc, sp: k });
            lemma_run_stays_before(program, line, sp, run, run.len() - 1);
        }
    }
    if 0 <= k < line.len() {
        lemma_width_run_over(program, line, sp, k + 1);
    }
}

} // verus!
