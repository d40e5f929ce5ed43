//! What a pattern means, and the proof that the program of a pattern accepts
//! a line exactly when the pattern matches a prefix of the line.

use super::codegen::{
    code_len, code_of, concat_code, concat_len, lemma_code_shape, lemma_concat_shape, program_of,
};
use super::machine::{
    accepts, at_match, lemma_accepts_iff_within, lemma_reaches_start, lemma_reaches_step, reaches,
    start, steps_to, within, Thread,
};
use super::parser::Pattern;
use super::width_first::lemma_reached_in_bounds;
use super::{targets_within, Instruction};
use vstd::prelude::*;

verus! {

/// Position `mid` lies between positions `from` and `to`.
pub open spec fn between(from: int, mid: int, to: int) -> bool {
    from <= mid <= to
}

/// Pattern `p` matches the characters of `line` from position `from` up to,
/// and not including, position `to`.
pub open spec fn spans(p: Pattern, line: Seq<char>, from: int, to: int) -> bool
    decreases p, 0nat,
{
    match p {
        Pattern::Literal(c) => 0 <= from < line.len() && line[from] == c && to == from + 1,
        Pattern::Concat(ps) => spans_concat(ps, ps.len(), line, from, to),
        Pattern::Alternation(a, b) => spans(*a, line, from, to) || spans(*b, line, from, to),
        Pattern::OneOrMore(e) => exists|mid: int|
            {
                &&& #[trigger] between(from, mid, to)
                &&& spans(*e, line, from, mid)
                &&& spans_star(*e, line, mid, to)
            },
        Pattern::ZeroOrMore(e) => spans_star(*e, line, from, to),
        Pattern::ZeroOrOne(e) => to == from || spans(*e, line, from, to),
    }
}

/// Pattern `e` matches any number of times in a row from position `from` up
/// to `to`: not at all, or once over a stretch that is not empty and then any
/// number of times over the rest.
pub open spec fn spans_star(e: Pattern, line: Seq<char>, from: int, to: int) -> bool
    decreases e, 1nat, to - from,
{
    to == from || exists|mid: int|
        {
            &&& #[trigger] between(from, mid, to)
            &&& from < mid
            &&& spans(e, line, from, mid)
            &&& spans_star(e, line, mid, to)
        }
}

/// The first `n` patterns of `ps` match one after the other from position
/// `from` up to `to`.
pub open spec fn spans_concat(ps: Seq<Pattern>, n: nat, line: Seq<char>, from: int, to: int) -> bool
    decreases ps, n + 1,
{
    if n == 0 || n > ps.len() {
        to == from
    } else {
        exists|mid: int|
            {
                &&& #[trigger] between(from, mid, to)
                &&& spans_concat(ps, (n - 1) as nat, line, from, mid)
                &&& spans(ps[n - 1], line, mid, to)
            }
    }
}

/// Pattern `p` matches a prefix of `line`.
pub open spec fn matches_prefix(p: Pattern, line: Seq<char>) -> bool {
    exists|to: int| 0 <= to <= line.len() && #[trigger] spans(p, line, 0, to)
}

/// Thread `a` becomes thread `b` in `n` steps, each of them taken at an
/// address from `lo` up to, and not including, `hi`.
pub open spec fn goes(
    program: Seq<Instruction>,
    line: Seq<char>,
    lo: int,
    hi: int,
    a: Thread,
    b: Thread,
    n: nat,
) -> bool
    decreases n,
{
    if n == 0 {
        a == b
    } else {
        &&& lo <= a.pc < hi
        &&& exists|m: Thread| #[trigger]
            steps_to(program, line, a, m) && goes(program, line, lo, hi, m, b, (n - 1) as nat)
    }
}

/// `code` stands in `program` from address `base` on.
pub open spec fn embeds(program: Seq<Instruction>, code: Seq<Instruction>, base: int) -> bool {
    &&& 0 <= base
    &&& base + code.len() <= program.len()
    &&& forall|k: int| 0 <= k < code.len() ==> program[base + k] == #[trigger] code[k]
}

/// No instruction from `lo` up to `hi` leads anywhere but to an address from
/// `lo` to `hi`.
pub open spec fn closed(program: Seq<Instruction>, lo: int, hi: int) -> bool {
    &&& 0 <= lo <= hi <= program.len()
    &&& forall|pc: int|
        lo <= pc < hi ==> match #[trigger] program[pc] {
            Instruction::Jump(t) => lo <= t <= hi,
            Instruction::Split(t1, t2) => lo <= t1 <= hi && lo <= t2 <= hi,
            _ => true,
        }
}

/// A path that takes its steps in a range takes them in every wider range.
pub proof fn lemma_goes_widen(
    program: Seq<Instruction>,
    line: Seq<char>,
    lo: int,
    hi: int,
    lo2: int,
    hi2: int,
    a: Thread,
    b: Thread,
    n: nat,
)
    requires
        goes(program, line, lo, hi, a, b, n),
        lo2 <= lo,
        hi <= hi2,
    ensures
        goes(program, line, lo2, hi2, a, b, n),
    decreases n,
{
    if n > 0 {
        let m = choose|m: Thread| #[trigger]
            steps_to(program, line, a, m) && goes(program, line, lo, hi, m, b, (n - 1) as nat);
        lemma_goes_widen(program, line, lo, hi, lo2, hi2, m, b, (n - 1) as nat);
    }
}

/// Two paths, the second from where the first ends, are one path.
pub proof fn lemma_goes_join(
    program: Seq<Instruction>,
    line: Seq<char>,
    lo: int,
    hi: int,
    a: Thread,
    b: Thread,
    c: Thread,
    n: nat,
    m: nat,
)
    requires
        goes(program, line, lo, hi, a, b, n),
        goes(program, line, lo, hi, b, c, m),
    ensures
        goes(program, line, lo, hi, a, c, n + m),
    decreases n,
{
    if n > 0 {
        let x = choose|x: Thread| #[trigger]
            steps_to(program, line, a, x) && goes(program, line, lo, hi, x, b, (n - 1) as nat);
        lemma_goes_join(program, line, lo, hi, x, b, c, (n - 1) as nat, m);
        assert(goes(program, line, lo, hi, x, c, (n + m - 1) as nat));
    }
}

/// One step, followed by a path, is a path.
pub proof fn lemma_goes_step(
    program: Seq<Instruction>,
    line: Seq<char>,
    lo: int,
    hi: int,
    a: Thread,
    b: Thread,
    c: Thread,
    n: nat,
)
    requires
        lo <= a.pc < hi,
        steps_to(program, line, a, b),
        goes(program, line, lo, hi, b, c, n),
    ensures
        goes(program, line, lo, hi, a, c, n + 1),
{
    assert(goes(program, line, lo, hi, b, c, ((n + 1) - 1) as nat));
}

/// The end of a path from a reached thread is reached.
pub proof fn lemma_goes_reaches(
    program: Seq<Instruction>,
    line: Seq<char>,
    lo: int,
    hi: int,
    a: Thread,
    b: Thread,
    n: nat,
)
    requires
        reaches(program, line, a),
        goes(program, line, lo, hi, a, b, n),
    ensures
        reaches(program, line, b),
    decreases n,
{
    if n > 0 {
        let m = choose|m: Thread| #[trigger]
            steps_to(program, line, a, m) && goes(program, line, lo, hi, m, b, (n - 1) as nat);
        lemma_reaches_step(program, line, a, m);
        lemma_goes_reaches(program, line, lo, hi, m, b, (n - 1) as nat);
    }
}

/// A path that starts in a closed range and ends outside it leaves the range
/// at its upper end: it is a path within the range to that end, followed by
/// the rest. The result is the length of the first part and the input
/// position at which the range is left.
pub proof fn lemma_goes_leaves(
    program: Seq<Instruction>,
    line: Seq<char>,
    lo: int,
    hi: int,
    lo2: int,
    hi2: int,
    a: Thread,
    b: Thread,
    n: nat,
) -> (r: (nat, int))
    requires
        goes(program, line, lo, hi, a, b, n),
        closed(program, lo2, hi2),
        lo <= lo2,
        hi2 <= hi,
        lo2 <= a.pc <= hi2,
        !(lo2 <= b.pc < hi2),
    ensures
        r.0 <= n,
        goes(program, line, lo2, hi2, a, Thread { pc: hi2, sp: r.1 }, r.0),
        goes(program, line, lo, hi, Thread { pc: hi2, sp: r.1 }, b, (n - r.0) as nat),
    decreases n,
{
    if a.pc == hi2 {
        (0, a.sp)
    } else {
        let m = choose|m: Thread| #[trigger]
            steps_to(program, line, a, m) && goes(program, line, lo, hi, m, b, (n - 1) as nat);
        let _ = program[a.pc];
        let r = lemma_goes_leaves(program, line, lo, hi, lo2, hi2, m, b, (n - 1) as nat);
        lemma_goes_step(program, line, lo2, hi2, a, m, Thread { pc: hi2, sp: r.1 }, r.0);
        (r.0 + 1, r.1)
    }
}

/// A path from an address at which no step may be taken has no steps.
pub proof fn lemma_goes_nowhere(
    program: Seq<Instruction>,
    line: Seq<char>,
    lo: int,
    hi: int,
    a: Thread,
    b: Thread,
    n: nat,
)
    requires
        goes(program, line, lo, hi, a, b, n),
        !(lo <= a.pc < hi),
    ensures
        n == 0,
        a == b,
{
}

/// Code that stands in a program is closed where its targets lie within it.
pub proof fn lemma_embedded_closed(
    program: Seq<Instruction>,
    code: Seq<Instruction>,
    base: int,
)
    requires
        embeds(program, code, base),
        targets_within(code, base, base + code.len()),
    ensures
        closed(program, base, base + code.len()),
{
    assert forall|pc: int| base <= pc < base + code.len() implies match #[trigger] program[pc] {
        Instruction::Jump(t) => base <= t <= base + code.len(),
        Instruction::Split(t1, t2) => base <= t1 <= base + code.len() && base <= t2 <= base
            + code.len(),
        _ => true,
    } by {
        let k = pc - base;
        assert(program[base + k] == code[k]);
    }
}

/// Where two pieces of code stand joined in a program, each stands there.
pub proof fn lemma_embeds_parts(
    program: Seq<Instruction>,
    first: Seq<Instruction>,
    second: Seq<Instruction>,
    base: int,
)
    requires
        embeds(program, first + second, base),
    ensures
        embeds(program, first, base),
        embeds(program, second, base + first.len()),
{
    let both = first + second;
    assert forall|k: int| 0 <= k < first.len() implies program[base + k] == #[trigger] first[k] by {
        assert(both[k] == first[k]);
    }
    assert forall|k: int| 0 <= k < second.len() implies program[base + first.len() + k]
        == #[trigger] second[k] by {
        assert(both[first.len() + k] == second[k]);
        assert(program[base + (first.len() + k)] == both[first.len() + k]);
    }
}

/// The thread at address `pc` and input position `sp`.
pub open spec fn at(pc: int, sp: int) -> Thread {
    Thread { pc, sp }
}

/// Where the code of an alternation stands: its split, the code of the left
/// side, the jump over the right side, and the code of the right side.
pub proof fn lemma_layout_alternation(
    program: Seq<Instruction>,
    a: Pattern,
    b: Pattern,
    base: int,
)
    requires
        0 <= base,
        embeds(
            program,
            code_of(Pattern::Alternation(Box::new(a), Box::new(b)), base as nat),
            base,
        ),
        base + code_len(a) + code_len(b) + 2 <= usize::MAX,
    ensures
        program[base] == Instruction::Split(
            (base + 1) as usize,
            (base + code_len(a) + 2) as usize,
        ),
        program[base + code_len(a) + 1] == Instruction::Jump(
            (base + code_len(a) + code_len(b) + 2) as usize,
        ),
        embeds(program, code_of(a, (base + 1) as nat), base + 1),
        embeds(program, code_of(b, (base + code_len(a) + 2) as nat), base + code_len(a) + 2),
        closed(program, base + 1, base + 1 + code_len(a)),
        closed(program, base + code_len(a) + 2, base + code_len(a) + 2 + code_len(b)),
        base + code_len(a) + code_len(b) + 2 <= program.len(),
{
    lemma_code_shape(Pattern::Alternation(Box::new(a), Box::new(b)), base as nat);
    let l1 = base + 1;
    let l2 = l1 + code_len(a) + 1;
    let l3 = l2 + code_len(b);
    let s1 = seq![Instruction::Split(l1 as usize, l2 as usize)];
    let s2 = seq![Instruction::Jump(l3 as usize)];
    lemma_code_shape(a, l1 as nat);
    lemma_code_shape(b, l2 as nat);
    lemma_embeds_parts(program, s1 + code_of(a, l1 as nat) + s2, code_of(b, l2 as nat), base);
    lemma_embeds_parts(program, s1 + code_of(a, l1 as nat), s2, base);
    lemma_embeds_parts(program, s1, code_of(a, l1 as nat), base);
    assert(program[base + 0] == s1[0]);
    assert(program[base + code_len(a) + 1 + 0] == s2[0]);
    lemma_embedded_closed(program, code_of(a, l1 as nat), l1);
    lemma_embedded_closed(program, code_of(b, l2 as nat), l2);
}

/// Where the code of a one-or-more loop stands: the code of the body, then
/// the split.
pub proof fn lemma_layout_plus(program: Seq<Instruction>, e: Pattern, base: int)
    requires
        0 <= base,
        embeds(program, code_of(Pattern::OneOrMore(Box::new(e)), base as nat), base),
        base + code_len(e) + 1 <= usize::MAX,
    ensures
        program[base + code_len(e)] == Instruction::Split(
            base as usize,
            (base + code_len(e) + 1) as usize,
        ),
        embeds(program, code_of(e, base as nat), base),
        closed(program, base, base + code_len(e)),
        base + code_len(e) + 1 <= program.len(),
{
    lemma_code_shape(Pattern::OneOrMore(Box::new(e)), base as nat);
    let l2 = base + code_len(e) + 1;
    let s1 = seq![Instruction::Split(base as usize, l2 as usize)];
    lemma_code_shape(e, base as nat);
    lemma_embeds_parts(program, code_of(e, base as nat), s1, base);
    assert(program[base + code_len(e) + 0] == s1[0]);
    lemma_embedded_closed(program, code_of(e, base as nat), base);
}

/// Where the code of a zero-or-more loop stands: its split, the code of the
/// body, and the jump back.
pub proof fn lemma_layout_star(program: Seq<Instruction>, e: Pattern, base: int)
    requires
        0 <= base,
        embeds(program, code_of(Pattern::ZeroOrMore(Box::new(e)), base as nat), base),
        base + code_len(e) + 2 <= usize::MAX,
    ensures
        program[base] == Instruction::Split(
            (base + 1) as usize,
            (base + code_len(e) + 2) as usize,
        ),
        program[base + code_len(e) + 1] == Instruction::Jump(base as usize),
        embeds(program, code_of(e, (base + 1) as nat), base + 1),
        closed(program, base + 1, base + 1 + code_len(e)),
        base + code_len(e) + 2 <= program.len(),
{
    lemma_code_shape(Pattern::ZeroOrMore(Box::new(e)), base as nat);
    let l2 = base + 1;
    let l3 = l2 + code_len(e) + 1;
    let s1 = seq![Instruction::Split(l2 as usize, l3 as usize)];
    let s2 = seq![Instruction::Jump(base as usize)];
    lemma_code_shape(e, l2 as nat);
    lemma_embeds_parts(program, s1 + code_of(e, l2 as nat), s2, base);
    lemma_embeds_parts(program, s1, code_of(e, l2 as nat), base);
    assert(program[base + 0] == s1[0]);
    assert(program[base + code_len(e) + 1 + 0] == s2[0]);
    lemma_embedded_closed(program, code_of(e, l2 as nat), l2);
}

/// Where the code of a zero-or-one branch stands: its split, then the code of
/// the body.
pub proof fn lemma_layout_question(program: Seq<Instruction>, e: Pattern, base: int)
    requires
        0 <= base,
        embeds(program, code_of(Pattern::ZeroOrOne(Box::new(e)), base as nat), base),
        base + code_len(e) + 1 <= usize::MAX,
    ensures
        program[base] == Instruction::Split(
            (base + 1) as usize,
            (base + code_len(e) + 1) as usize,
        ),
        embeds(program, code_of(e, (base + 1) as nat), base + 1),
        closed(program, base + 1, base + 1 + code_len(e)),
        base + code_len(e) + 1 <= program.len(),
{
    lemma_code_shape(Pattern::ZeroOrOne(Box::new(e)), base as nat);
    let l1 = base + 1;
    let l2 = l1 + code_len(e);
    let s1 = seq![Instruction::Split(l1 as usize, l2 as usize)];
    lemma_code_shape(e, l1 as nat);
    lemma_embeds_parts(program, s1, code_of(e, l1 as nat), base);
    assert(program[base + 0] == s1[0]);
    lemma_embedded_closed(program, code_of(e, l1 as nat), l1);
}

/// Where the code of the first `n` patterns of a list stands: the code of
/// the first `n - 1`, then the code of the last.
pub proof fn lemma_layout_concat(program: Seq<Instruction>, ps: Seq<Pattern>, n: nat, base: int)
    requires
        0 <= base,
        0 < n <= ps.len(),
        embeds(program, concat_code(ps, n, base as nat), base),
        base + concat_len(ps, n) <= usize::MAX,
    ensures
        embeds(program, concat_code(ps, (n - 1) as nat, base as nat), base),
        embeds(
            program,
            code_of(ps[n - 1], (base + concat_len(ps, (n - 1) as nat)) as nat),
            base + concat_len(ps, (n - 1) as nat),
        ),
        closed(program, base, base + concat_len(ps, (n - 1) as nat)),
        closed(
            program,
            base + concat_len(ps, (n - 1) as nat),
            base + concat_len(ps, (n - 1) as nat) + code_len(ps[n - 1]),
        ),
{
    let m = (n - 1) as nat;
    let mid = base + concat_len(ps, m);
    lemma_concat_shape(ps, m, base as nat);
    lemma_code_shape(ps[n - 1], mid as nat);
    lemma_embeds_parts(program, concat_code(ps, m, base as nat), code_of(ps[n - 1], mid as nat), base);
    lemma_embedded_closed(program, concat_code(ps, m, base as nat), base);
    lemma_embedded_closed(program, code_of(ps[n - 1], mid as nat), mid);
}

/// A pattern matches only stretches that do not end before they start.
pub proof fn lemma_spans_ordered(p: Pattern, line: Seq<char>, from: int, to: int)
    requires
        spans(p, line, from, to),
    ensures
        from <= to,
    decreases p,
{
    match p {
        Pattern::Literal(c) => {},
        Pattern::Concat(ps) => {
            assert(spans_concat(ps, ps.len(), line, from, to));
            if !(ps.len() == 0) {
                let mid = choose|mid: int|
                    {
                        &&& #[trigger] between(from, mid, to)
                        &&& spans_concat(ps, (ps.len() - 1) as nat, line, from, mid)
                        &&& spans(ps[ps.len() - 1], line, mid, to)
                    };
            }
        },
        Pattern::Alternation(a, b) => {
            if spans(*a, line, from, to) {
                lemma_spans_ordered(*a, line, from, to);
            } else {
                lemma_spans_ordered(*b, line, from, to);
            }
        },
        Pattern::OneOrMore(e) => {
            let mid = choose|mid: int|
                {
                    &&& #[trigger] between(from, mid, to)
                    &&& spans(*e, line, from, mid)
                    &&& spans_star(*e, line, mid, to)
                };
        },
        Pattern::ZeroOrMore(e) => {
            lemma_star_ordered(*e, line, from, to);
        },
        Pattern::ZeroOrOne(e) => {
            if to != from {
                lemma_spans_ordered(*e, line, from, to);
            }
        },
    }
}

/// A repetition matches only stretches that do not end before they start.
pub proof fn lemma_star_ordered(e: Pattern, line: Seq<char>, from: int, to: int)
    requires
        spans_star(e, line, from, to),
    ensures
        from <= to,
{
    if to != from {
        let mid = choose|mid: int|
            {
                &&& #[trigger] between(from, mid, to)
                &&& from < mid
                &&& spans(e, line, from, mid)
                &&& spans_star(e, line, mid, to)
            };
    }
}

/// Where a pattern matches a stretch of the line, the machine has a path
/// through the pattern's code that consumes that stretch. The result is the
/// length of the path.
pub proof fn lemma_span_runs(
    program: Seq<Instruction>,
    line: Seq<char>,
    p: Pattern,
    base: int,
    from: int,
    to: int,
) -> (n: nat)
    requires
        0 <= base,
        embeds(program, code_of(p, base as nat), base),
        base + code_len(p) <= usize::MAX,
        spans(p, line, from, to),
    ensures
        goes(
            program,
            line,
            base,
            base + code_len(p),
            at(base, from),
            at(base + code_len(p), to),
            n,
        ),
    decreases p, 0nat, 0nat,
{
    let lo = base;
    let hi: int = base + code_len(p);
    let first = at(lo, from);
    let last = at(hi, to);
    match p {
        Pattern::Literal(c) => {
            assert(program[base + 0] == code_of(p, base as nat)[0]);
            assert(steps_to(program, line, first, last));
            lemma_goes_step(program, line, lo, hi, first, last, last, 0);
            1
        },
        Pattern::Concat(ps) => lemma_concat_runs(program, line, ps, ps.len(), base, from, to),
        Pattern::Alternation(a, b) => {
            lemma_layout_alternation(program, *a, *b, base);
            let l1 = base + 1;
            let l2 = l1 + code_len(*a) + 1;
            if spans(*a, line, from, to) {
                let n = lemma_span_runs(program, line, *a, l1, from, to);
                let after = at(l1 + code_len(*a), to);
                lemma_goes_widen(program, line, l1, l1 + code_len(*a), lo, hi, at(l1, from), after, n);
                assert(steps_to(program, line, after, last));
                lemma_goes_step(program, line, lo, hi, after, last, last, 0);
                lemma_goes_join(program, line, lo, hi, at(l1, from), after, last, n, 1);
                assert(steps_to(program, line, first, at(l1, from)));
                lemma_goes_step(program, line, lo, hi, first, at(l1, from), last, n + 1);
                n + 2
            } else {
                let n = lemma_span_runs(program, line, *b, l2, from, to);
                lemma_goes_widen(program, line, l2, l2 + code_len(*b), lo, hi, at(l2, from), last, n);
                assert(steps_to(program, line, first, at(l2, from)));
                lemma_goes_step(program, line, lo, hi, first, at(l2, from), last, n);
                n + 1
            }
        },
        Pattern::OneOrMore(e) => {
            lemma_layout_plus(program, *e, base);
            let mid = choose|mid: int|
                {
                    &&& #[trigger] between(from, mid, to)
                    &&& spans(*e, line, from, mid)
                    &&& spans_star(*e, line, mid, to)
                };
            let n1 = lemma_span_runs(program, line, *e, base, from, mid);
            let split = at(base + code_len(*e), mid);
            lemma_goes_widen(program, line, lo, base + code_len(*e), lo, hi, first, split, n1);
            let n2 = lemma_plus_loops(program, line, *e, base, mid, to);
            lemma_goes_join(program, line, lo, hi, first, split, last, n1, n2);
            n1 + n2
        },
        Pattern::ZeroOrMore(e) => lemma_star_runs(program, line, *e, base, from, to),
        Pattern::ZeroOrOne(e) => {
            lemma_layout_question(program, *e, base);
            let l1 = base + 1;
            if spans(*e, line, from, to) {
                let n = lemma_span_runs(program, line, *e, l1, from, to);
                lemma_goes_widen(program, line, l1, l1 + code_len(*e), lo, hi, at(l1, from), last, n);
                assert(steps_to(program, line, first, at(l1, from)));
                lemma_goes_step(program, line, lo, hi, first, at(l1, from), last, n);
                n + 1
            } else {
                assert(steps_to(program, line, first, last));
                lemma_goes_step(program, line, lo, hi, first, last, last, 0);
                1
            }
        },
    }
}

/// `lemma_span_runs` for the first `k` patterns of a list.
pub proof fn lemma_concat_runs(
    program: Seq<Instruction>,
    line: Seq<char>,
    ps: Seq<Pattern>,
    k: nat,
    base: int,
    from: int,
    to: int,
) -> (n: nat)
    requires
        0 <= base,
        k <= ps.len(),
        embeds(program, concat_code(ps, k, base as nat), base),
        base + concat_len(ps, k) <= usize::MAX,
        spans_concat(ps, k, line, from, to),
    ensures
        goes(
            program,
            line,
            base,
            base + concat_len(ps, k),
            at(base, from),
            at(base + concat_len(ps, k), to),
            n,
        ),
    decreases ps, k + 1, 0nat,
{
    if k == 0 {
        0
    } else {
        let j = (k - 1) as nat;
        let lo = base;
        let mid_pc = base + concat_len(ps, j);
        let hi: int = base + concat_len(ps, k);
        let mid = choose|mid: int|
            {
                &&& #[trigger] between(from, mid, to)
                &&& spans_concat(ps, j, line, from, mid)
                &&& spans(ps[k - 1], line, mid, to)
            };
        lemma_layout_concat(program, ps, k, base);
        let n1 = lemma_concat_runs(program, line, ps, j, base, from, mid);
        let n2 = lemma_span_runs(program, line, ps[k - 1], mid_pc, mid, to);
        lemma_goes_widen(program, line, lo, mid_pc, lo, hi, at(lo, from), at(mid_pc, mid), n1);
        lemma_goes_widen(program, line, mid_pc, hi, lo, hi, at(mid_pc, mid), at(hi, to), n2);
        lemma_goes_join(program, line, lo, hi, at(lo, from), at(mid_pc, mid), at(hi, to), n1, n2);
        n1 + n2
    }
}

/// `lemma_span_runs` for a zero-or-more loop.
pub proof fn lemma_star_runs(
    program: Seq<Instruction>,
    line: Seq<char>,
    e: Pattern,
    base: int,
    from: int,
    to: int,
) -> (n: nat)
    requires
        0 <= base,
        embeds(program, code_of(Pattern::ZeroOrMore(Box::new(e)), base as nat), base),
        base + code_len(e) + 2 <= usize::MAX,
        spans_star(e, line, from, to),
    ensures
        goes(
            program,
            line,
            base,
            base + code_len(e) + 2,
            at(base, from),
            at(base + code_len(e) + 2, to),
            n,
        ),
    decreases e, 1nat, to - from,
{
    lemma_layout_star(program, e, base);
    let lo = base;
    let hi: int = base + code_len(e) + 2;
    let l2 = base + 1;
    let first = at(lo, from);
    let last = at(hi, to);
    if to == from {
        assert(steps_to(program, line, first, last));
        lemma_goes_step(program, line, lo, hi, first, last, last, 0);
        1
    } else {
        let mid = choose|mid: int|
            {
                &&& #[trigger] between(from, mid, to)
                &&& from < mid
                &&& spans(e, line, from, mid)
                &&& spans_star(e, line, mid, to)
            };
        let n1 = lemma_span_runs(program, line, e, l2, from, mid);
        let n2 = lemma_star_runs(program, line, e, base, mid, to);
        let body = at(l2, from);
        let back = at(l2 + code_len(e), mid);
        let again = at(lo, mid);
        lemma_goes_widen(program, line, l2, l2 + code_len(e), lo, hi, body, back, n1);
        assert(steps_to(program, line, back, again));
        lemma_goes_step(program, line, lo, hi, back, again, last, n2);
        lemma_goes_join(program, line, lo, hi, body, back, last, n1, n2 + 1);
        assert(steps_to(program, line, first, body));
        lemma_goes_step(program, line, lo, hi, first, body, last, n1 + n2 + 1);
        n1 + n2 + 2
    }
}

/// From the split that ends the body of a one-or-more loop, the machine has a
/// path to the loop's end that consumes any stretch that the body matches any
/// number of times.
pub proof fn lemma_plus_loops(
    program: Seq<Instruction>,
    line: Seq<char>,
    e: Pattern,
    base: int,
    from: int,
    to: int,
) -> (n: nat)
    requires
        0 <= base,
        embeds(program, code_of(Pattern::OneOrMore(Box::new(e)), base as nat), base),
        base + code_len(e) + 1 <= usize::MAX,
        spans_star(e, line, from, to),
    ensures
        goes(
            program,
            line,
            base,
            base + code_len(e) + 1,
            at(base + code_len(e), from),
            at(base + code_len(e) + 1, to),
            n,
        ),
    decreases e, 1nat, to - from,
{
    lemma_layout_plus(program, e, base);
    let lo = base;
    let hi: int = base + code_len(e) + 1;
    let split = at(base + code_len(e), from);
    let last = at(hi, to);
    if to == from {
        assert(steps_to(program, line, split, last));
        lemma_goes_step(program, line, lo, hi, split, last, last, 0);
        1
    } else {
        let mid = choose|mid: int|
            {
                &&& #[trigger] between(from, mid, to)
                &&& from < mid
                &&& spans(e, line, from, mid)
                &&& spans_star(e, line, mid, to)
            };
        let n1 = lemma_span_runs(program, line, e, base, from, mid);
        let n2 = lemma_plus_loops(program, line, e, base, mid, to);
        let again = at(lo, from);
        let next = at(base + code_len(e), mid);
        lemma_goes_widen(program, line, lo, base + code_len(e), lo, hi, again, next, n1);
        lemma_goes_join(program, line, lo, hi, again, next, last, n1, n2);
        assert(steps_to(program, line, split, again));
        lemma_goes_step(program, line, lo, hi, split, again, last, n1 + n2);
        n1 + n2 + 1
    }
}

/// Where the machine has a path through a pattern's code, from its first
/// address to the address behind it, the pattern matches the stretch of the
/// line that the path consumes.
pub proof fn lemma_run_spans(
    program: Seq<Instruction>,
    line: Seq<char>,
    p: Pattern,
    base: int,
    from: int,
    to: int,
    n: nat,
)
    requires
        0 <= base,
        embeds(program, code_of(p, base as nat), base),
        base + code_len(p) <= usize::MAX,
        goes(
            program,
            line,
            base,
            base + code_len(p),
            at(base, from),
            at(base + code_len(p), to),
            n,
        ),
    ensures
        spans(p, line, from, to),
    decreases p, n, 0nat,
{
    let lo = base;
    let hi: int = base + code_len(p);
    let first = at(lo, from);
    let last = at(hi, to);
    match p {
        Pattern::Literal(c) => {
            assert(program[base + 0] == code_of(p, base as nat)[0]);
            let m = choose|m: Thread| #[trigger]
                steps_to(program, line, first, m) && goes(
                    program,
                    line,
                    lo,
                    hi,
                    m,
                    last,
                    (n - 1) as nat,
                );
            lemma_goes_nowhere(program, line, lo, hi, m, last, (n - 1) as nat);
        },
        Pattern::Concat(ps) => {
            lemma_concat_run_spans(program, line, ps, ps.len(), base, from, to, n);
        },
        Pattern::Alternation(a, b) => {
            lemma_layout_alternation(program, *a, *b, base);
            let l1 = base + 1;
            let l2 = l1 + code_len(*a) + 1;
            let m = choose|m: Thread| #[trigger]
                steps_to(program, line, first, m) && goes(
                    program,
                    line,
                    lo,
                    hi,
                    m,
                    last,
                    (n - 1) as nat,
                );
            if m == at(l1, from) {
                let r = lemma_goes_leaves(
                    program,
                    line,
                    lo,
                    hi,
                    l1,
                    l1 + code_len(*a),
                    m,
                    last,
                    (n - 1) as nat,
                );
                lemma_run_spans(program, line, *a, l1, from, r.1, r.0);
                let jump = at(l1 + code_len(*a), r.1);
                let rest = (n - 1 - r.0) as nat;
                let m2 = choose|m2: Thread| #[trigger]
                    steps_to(program, line, jump, m2) && goes(
                        program,
                        line,
                        lo,
                        hi,
                        m2,
                        last,
                        (rest - 1) as nat,
                    );
                lemma_goes_nowhere(program, line, lo, hi, m2, last, (rest - 1) as nat);
            } else {
                let r = lemma_goes_leaves(program, line, lo, hi, l2, hi, m, last, (n - 1) as nat);
                lemma_goes_nowhere(
                    program,
                    line,
                    lo,
                    hi,
                    at(hi, r.1),
                    last,
                    (n - 1 - r.0) as nat,
                );
                lemma_run_spans(program, line, *b, l2, from, to, r.0);
            }
        },
        Pattern::OneOrMore(e) => {
            lemma_layout_plus(program, *e, base);
            let r = lemma_goes_leaves(program, line, lo, hi, lo, hi - 1, first, last, n);
            let mid = r.1;
            lemma_run_spans(program, line, *e, base, from, mid, r.0);
            lemma_spans_ordered(*e, line, from, mid);
            let split = at(hi - 1, mid);
            let rest = (n - r.0) as nat;
            let m = choose|m: Thread| #[trigger]
                steps_to(program, line, split, m) && goes(
                    program,
                    line,
                    lo,
                    hi,
                    m,
                    last,
                    (rest - 1) as nat,
                );
            if m == at(lo, mid) {
                lemma_run_spans(program, line, p, base, mid, to, (rest - 1) as nat);
                let mid2 = choose|mid2: int|
                    {
                        &&& #[trigger] between(mid, mid2, to)
                        &&& spans(*e, line, mid, mid2)
                        &&& spans_star(*e, line, mid2, to)
                    };
                if mid2 != mid {
                    assert(between(mid, mid2, to));
                    assert(spans_star(*e, line, mid, to));
                }
                assert(between(from, mid, to));
            } else {
                lemma_goes_nowhere(program, line, lo, hi, m, last, (rest - 1) as nat);
                assert(spans_star(*e, line, mid, to));
                assert(between(from, mid, to));
            }
        },
        Pattern::ZeroOrMore(e) => {
            lemma_layout_star(program, *e, base);
            let l2 = base + 1;
            let m = choose|m: Thread| #[trigger]
                steps_to(program, line, first, m) && goes(
                    program,
                    line,
                    lo,
                    hi,
                    m,
                    last,
                    (n - 1) as nat,
                );
            if m == at(l2, from) {
                let r = lemma_goes_leaves(
                    program,
                    line,
                    lo,
                    hi,
                    l2,
                    l2 + code_len(*e),
                    m,
                    last,
                    (n - 1) as nat,
                );
                let mid = r.1;
                lemma_run_spans(program, line, *e, l2, from, mid, r.0);
                lemma_spans_ordered(*e, line, from, mid);
                let jump = at(l2 + code_len(*e), mid);
                let rest = (n - 1 - r.0) as nat;
                let m2 = choose|m2: Thread| #[trigger]
                    steps_to(program, line, jump, m2) && goes(
                        program,
                        line,
                        lo,
                        hi,
                        m2,
                        last,
                        (rest - 1) as nat,
                    );
                lemma_run_spans(program, line, p, base, mid, to, (rest - 1) as nat);
                assert(spans_star(*e, line, mid, to));
                if mid != from {
                    lemma_star_ordered(*e, line, mid, to);
                    assert(between(from, mid, to));
                }
                assert(spans_star(*e, line, from, to));
            } else {
                lemma_goes_nowhere(program, line, lo, hi, m, last, (n - 1) as nat);
                assert(spans_star(*e, line, from, to));
            }
        },
        Pattern::ZeroOrOne(e) => {
            lemma_layout_question(program, *e, base);
            let l1 = base + 1;
            let m = choose|m: Thread| #[trigger]
                steps_to(program, line, first, m) && goes(
                    program,
                    line,
                    lo,
                    hi,
                    m,
                    last,
                    (n - 1) as nat,
                );
            if m == at(hi, from) {
                lemma_goes_nowhere(program, line, lo, hi, m, last, (n - 1) as nat);
            } else {
                let r = lemma_goes_leaves(program, line, lo, hi, l1, hi, m, last, (n - 1) as nat);
                lemma_goes_nowhere(
                    program,
                    line,
                    lo,
                    hi,
                    at(hi, r.1),
                    last,
                    (n - 1 - r.0) as nat,
                );
                lemma_run_spans(program, line, *e, l1, from, to, r.0);
            }
        },
    }
}

/// `lemma_run_spans` for the first `k` patterns of a list.
pub proof fn lemma_concat_run_spans(
    program: Seq<Instruction>,
    line: Seq<char>,
    ps: Seq<Pattern>,
    k: nat,
    base: int,
    from: int,
    to: int,
    n: nat,
)
    requires
        0 <= base,
        k <= ps.len(),
        embeds(program, concat_code(ps, k, base as nat), base),
        base + concat_len(ps, k) <= usize::MAX,
        goes(
            program,
            line,
            base,
            base + concat_len(ps, k),
            at(base, from),
            at(base + concat_len(ps, k), to),
            n,
        ),
    ensures
        spans_concat(ps, k, line, from, to),
    decreases ps, k,
{
    let lo = base;
    let hi: int = base + concat_len(ps, k);
    let first = at(lo, from);
    let last = at(hi, to);
    if k == 0 {
        lemma_goes_nowhere(program, line, lo, hi, first, last, n);
    } else {
        let j = (k - 1) as nat;
        let mid_pc = base + concat_len(ps, j);
        lemma_layout_concat(program, ps, k, base);
        let r1 = lemma_goes_leaves(program, line, lo, hi, lo, mid_pc, first, last, n);
        let mid = r1.1;
        lemma_concat_run_spans(program, line, ps, j, base, from, mid, r1.0);
        let r2 = lemma_goes_leaves(
            program,
            line,
            lo,
            hi,
            mid_pc,
            hi,
            at(mid_pc, mid),
            last,
            (n - r1.0) as nat,
        );
        lemma_goes_nowhere(program, line, lo, hi, at(hi, r2.1), last, (n - r1.0 - r2.0) as nat);
        lemma_run_spans(program, line, ps[k - 1], mid_pc, mid, to, r2.0);
        lemma_spans_ordered(ps[k - 1], line, mid, to);
        lemma_concat_ordered(ps, j, line, from, mid);
        assert(between(from, mid, to));
    }
}

/// A run of patterns matches only stretches that do not end before they
/// start.
pub proof fn lemma_concat_ordered(ps: Seq<Pattern>, n: nat, line: Seq<char>, from: int, to: int)
    requires
        spans_concat(ps, n, line, from, to),
    ensures
        from <= to,
{
    if !(n == 0 || n > ps.len()) {
        let mid = choose|mid: int|
            {
                &&& #[trigger] between(from, mid, to)
                &&& spans_concat(ps, (n - 1) as nat, line, from, mid)
                &&& spans(ps[n - 1], line, mid, to)
            };
    }
}

/// No instruction of `code` is `Match`.
pub open spec fn no_match(code: Seq<Instruction>) -> bool {
    forall|k: int| 0 <= k < code.len() ==> #[trigger] code[k] != Instruction::Match
}

/// Two pieces of code without `Match` have none when joined.
pub proof fn lemma_no_match_join(first: Seq<Instruction>, second: Seq<Instruction>)
    requires
        no_match(first),
        no_match(second),
    ensures
        no_match(first + second),
{
    assert forall|k: int| 0 <= k < (first + second).len() implies #[trigger] (first + second)[k]
        != Instruction::Match by {
        if k < first.len() {
            assert((first + second)[k] == first[k]);
        } else {
            assert((first + second)[k] == second[k - first.len()]);
        }
    }
}

/// The code of a pattern holds no `Match`.
pub proof fn lemma_code_no_match(p: Pattern, base: nat)
    ensures
        no_match(code_of(p, base)),
    decreases p, 0nat,
{
    match p {
        Pattern::Literal(c) => {},
        Pattern::Concat(ps) => {
            lemma_concat_no_match(ps, ps.len(), base);
        },
        Pattern::Alternation(a, b) => {
            let l1 = base + 1;
            let l2 = l1 + code_len(*a) + 1;
            let l3 = l2 + code_len(*b);
            let s1 = seq![Instruction::Split(l1 as usize, l2 as usize)];
            let s2 = seq![Instruction::Jump(l3 as usize)];
            lemma_code_no_match(*a, l1);
            lemma_code_no_match(*b, l2);
            lemma_no_match_join(s1, code_of(*a, l1));
            lemma_no_match_join(s1 + code_of(*a, l1), s2);
            lemma_no_match_join(s1 + code_of(*a, l1) + s2, code_of(*b, l2));
        },
        Pattern::OneOrMore(e) => {
            let l2 = base + code_len(*e) + 1;
            let s1 = seq![Instruction::Split(base as usize, l2 as usize)];
            lemma_code_no_match(*e, base);
            lemma_no_match_join(code_of(*e, base), s1);
        },
        Pattern::ZeroOrMore(e) => {
            let l2 = base + 1;
            let l3 = l2 + code_len(*e) + 1;
            let s1 = seq![Instruction::Split(l2 as usize, l3 as usize)];
            let s2 = seq![Instruction::Jump(base as usize)];
            lemma_code_no_match(*e, l2);
            lemma_no_match_join(s1, code_of(*e, l2));
            lemma_no_match_join(s1 + code_of(*e, l2), s2);
        },
        Pattern::ZeroOrOne(e) => {
            let l1 = base + 1;
            let l2 = l1 + code_len(*e);
            let s1 = seq![Instruction::Split(l1 as usize, l2 as usize)];
            lemma_code_no_match(*e, l1);
            lemma_no_match_join(s1, code_of(*e, l1));
        },
    }
}

/// `lemma_code_no_match` for the first `n` patterns of a list.
pub proof fn lemma_concat_no_match(ps: Seq<Pattern>, n: nat, base: nat)
    ensures
        no_match(concat_code(ps, n, base)),
    decreases ps, n,
{
    if !(n == 0 || n > ps.len()) {
        let m = (n - 1) as nat;
        lemma_concat_no_match(ps, m, base);
        lemma_code_no_match(ps[n - 1], base + concat_len(ps, m));
        lemma_no_match_join(concat_code(ps, m, base), code_of(ps[n - 1], base + concat_len(ps, m)));
    }
}

/// In the program of a pattern, a path to `Match` is a path through the
/// pattern's code to the address behind it. The result is the length of that
/// path and the input position at which it ends.
pub proof fn lemma_within_goes(
    p: Pattern,
    line: Seq<char>,
    pc: int,
    sp: int,
    n: nat,
) -> (r: (nat, int))
    requires
        code_len(p) + 1 <= usize::MAX,
        0 <= pc <= code_len(p),
        within(program_of(p), line, pc, sp, n),
    ensures
        goes(
            program_of(p),
            line,
            0,
            code_len(p) as int,
            at(pc, sp),
            at(code_len(p) as int, r.1),
            r.0,
        ),
    decreases n,
{
    let program = program_of(p);
    let end = code_len(p) as int;
    if pc == end {
        (0, sp)
    } else {
        lemma_code_shape(p, 0);
        lemma_code_no_match(p, 0);
        assert(program[pc] == code_of(p, 0)[pc]);
        let here = at(pc, sp);
        let next = match program[pc] {
            Instruction::Char(c) => at(pc + 1, sp + 1),
            Instruction::Jump(t) => at(t as int, sp),
            Instruction::Split(t1, t2) => if within(program, line, t1 as int, sp, (n - 1) as nat) {
                at(t1 as int, sp)
            } else {
                at(t2 as int, sp)
            },
            Instruction::Match => here,
        };
        assert(steps_to(program, line, here, next));
        let r = lemma_within_goes(p, line, next.pc, next.sp, (n - 1) as nat);
        lemma_goes_step(program, line, 0, end, here, next, at(end, r.1), r.0);
        (r.0 + 1, r.1)
    }
}

/// The program of a pattern accepts a line exactly when the pattern matches a
/// prefix of the line.
pub proof fn lemma_program_decides(p: Pattern, line: Seq<char>)
    requires
        code_len(p) + 1 <= usize::MAX,
    ensures
        accepts(program_of(p), line) <==> matches_prefix(p, line),
{
    let program = program_of(p);
    let end = code_len(p) as int;
    lemma_code_shape(p, 0);
    assert(embeds(program, code_of(p, 0), 0)) by {
        assert forall|k: int| 0 <= k < code_of(p, 0).len() implies program[0 + k]
            == #[trigger] code_of(p, 0)[k] by {}
    }
    assert(program[end] == Instruction::Match);
    lemma_reaches_start(program, line);
    assert(start() == at(0, 0));
    if matches_prefix(p, line) {
        let to = choose|to: int| 0 <= to <= line.len() && #[trigger] spans(p, line, 0, to);
        let n = lemma_span_runs(program, line, p, 0, 0, to);
        lemma_goes_reaches(program, line, 0, end, at(0, 0), at(end, to), n);
        assert(at_match(program, at(end, to)));
    }
    if accepts(program, line) {
        lemma_accepts_iff_within(program, line);
        let n = choose|n: nat| within(program, line, 0, 0, n);
        let r = lemma_within_goes(p, line, 0, 0, n);
        lemma_goes_reaches(program, line, 0, end, at(0, 0), at(end, r.1), r.0);
        lemma_reached_in_bounds(program, line, at(end, r.1));
        lemma_run_spans(program, line, p, 0, 0, r.1, r.0);
    }
}

} // verus!
