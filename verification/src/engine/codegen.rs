//! Code generator: turns a syntax tree into a program for the matching
//! machine, fixing forward jump targets once they are known.

use super::parser::{depth, lemma_max_depth_bounds, max_depth, models, Pattern, AST};
use super::{targets_within, well_formed, Instruction};
use vstd::prelude::*;

verus! {

/// Why a tree could not be compiled.
#[derive(Debug, Clone, Copy, PartialEq, Eq, Structural)]
pub enum CodeGenError {
    /// The program would have more instructions than an address can count.
    PCOverFlow,
    /// The split of a zero-or-more loop was not found where it was emitted.
    FailStar,
    /// The split or jump of an alternation was not found where it was emitted.
    FailOr,
    /// The split of a zero-or-one branch was not found where it was emitted.
    FailQuestion,
}

/// Number of instructions that `p` compiles to.
pub open spec fn code_len(p: Pattern) -> nat
    decreases p, 0nat,
{
    match p {
        Pattern::Literal(_) => 1,
        Pattern::Concat(ps) => concat_len(ps, ps.len()),
        Pattern::Alternation(a, b) => code_len(*a) + code_len(*b) + 2,
        Pattern::OneOrMore(e) => code_len(*e) + 1,
        Pattern::ZeroOrMore(e) => code_len(*e) + 2,
        Pattern::ZeroOrOne(e) => code_len(*e) + 1,
    }
}

/// Number of instructions that the first `n` patterns of `ps` compile to.
pub open spec fn concat_len(ps: Seq<Pattern>, n: nat) -> nat
    decreases ps, n,
{
    if n == 0 || n > ps.len() {
        0
    } else {
        concat_len(ps, (n - 1) as nat) + code_len(ps[n - 1])
    }
}

/// The instructions that `p` compiles to when its first instruction is placed
/// at address `base`.
pub open spec fn code_of(p: Pattern, base: nat) -> Seq<Instruction>
    decreases p, 0nat,
{
    match p {
        Pattern::Literal(c) => seq![Instruction::Char(c)],
        Pattern::Concat(ps) => concat_code(ps, ps.len(), base),
        Pattern::Alternation(a, b) => {
            let l1 = base + 1;
            let l2 = l1 + code_len(*a) + 1;
            let l3 = l2 + code_len(*b);
            seq![Instruction::Split(l1 as usize, l2 as usize)] + code_of(*a, l1)
                + seq![Instruction::Jump(l3 as usize)] + code_of(*b, l2)
        },
        Pattern::OneOrMore(e) => {
            let l2 = base + code_len(*e) + 1;
            code_of(*e, base) + seq![Instruction::Split(base as usize, l2 as usize)]
        },
        Pattern::ZeroOrMore(e) => {
            let l2 = base + 1;
            let l3 = l2 + code_len(*e) + 1;
            seq![Instruction::Split(l2 as usize, l3 as usize)] + code_of(*e, l2)
                + seq![Instruction::Jump(base as usize)]
        },
        Pattern::ZeroOrOne(e) => {
            let l1 = base + 1;
            let l2 = l1 + code_len(*e);
            seq![Instruction::Split(l1 as usize, l2 as usize)] + code_of(*e, l1)
        },
    }
}

/// The instructions that the first `n` patterns of `ps` compile to, one after
/// the other, the first of them placed at address `base`.
pub open spec fn concat_code(ps: Seq<Pattern>, n: nat, base: nat) -> Seq<Instruction>
    decreases ps, n,
{
    if n == 0 || n > ps.len() {
        Seq::empty()
    } else {
        concat_code(ps, (n - 1) as nat, base) + code_of(
            ps[n - 1],
            base + concat_len(ps, (n - 1) as nat),
        )
    }
}

/// The whole program for `p`: its code from address 0, then `Match`.
pub open spec fn program_of(p: Pattern) -> Seq<Instruction> {
    code_of(p, 0) + seq![Instruction::Match]
}

/// Targets that lie in a range lie in every wider range.
pub proof fn lemma_targets_widen(code: Seq<Instruction>, lo: int, hi: int, lo2: int, hi2: int)
    requires
        targets_within(code, lo, hi),
        lo2 <= lo,
        hi <= hi2,
    ensures
        targets_within(code, lo2, hi2),
{
    assert forall|i: int| 0 <= i < code.len() implies match #[trigger] code[i] {
        Instruction::Jump(t) => lo2 <= t <= hi2,
        Instruction::Split(t1, t2) => lo2 <= t1 <= hi2 && lo2 <= t2 <= hi2,
        _ => true,
    } by {
        let _ = code[i];
    }
}

/// Two pieces of code whose targets lie in a range keep them there when joined.
pub proof fn lemma_targets_concat(a: Seq<Instruction>, b: Seq<Instruction>, lo: int, hi: int)
    requires
        targets_within(a, lo, hi),
        targets_within(b, lo, hi),
    ensures
        targets_within(a + b, lo, hi),
{
    assert forall|i: int| 0 <= i < (a + b).len() implies match #[trigger] (a + b)[i] {
        Instruction::Jump(t) => lo <= t <= hi,
        Instruction::Split(t1, t2) => lo <= t1 <= hi && lo <= t2 <= hi,
        _ => true,
    } by {
        if i < a.len() {
            assert((a + b)[i] == a[i]);
        } else {
            assert((a + b)[i] == b[i - a.len()]);
        }
    }
}

/// The code of a pattern has the length that `code_len` gives, and each of its
/// targets lies between its first address and the address just past its end.
pub proof fn lemma_code_shape(p: Pattern, base: nat)
    requires
        base + code_len(p) <= usize::MAX,
    ensures
        code_of(p, base).len() == code_len(p),
        targets_within(code_of(p, base), base as int, (base + code_len(p)) as int),
    decreases p, 0nat,
{
    let lo = base as int;
    let hi: int = (base + code_len(p)) as int;
    match p {
        Pattern::Literal(c) => {},
        Pattern::Concat(ps) => {
            lemma_concat_shape(ps, ps.len(), base);
        },
        Pattern::Alternation(a, b) => {
            let l1 = base + 1;
            let l2 = l1 + code_len(*a) + 1;
            let l3 = l2 + code_len(*b);
            lemma_code_shape(*a, l1);
            lemma_code_shape(*b, l2);
            let s1 = seq![Instruction::Split(l1 as usize, l2 as usize)];
            let s2 = seq![Instruction::Jump(l3 as usize)];
            lemma_targets_widen(code_of(*a, l1), l1 as int, (l1 + code_len(*a)) as int, lo, hi);
            lemma_targets_widen(code_of(*b, l2), l2 as int, (l2 + code_len(*b)) as int, lo, hi);
            assert(targets_within(s1, lo, hi));
            assert(targets_within(s2, lo, hi));
            lemma_targets_concat(s1, code_of(*a, l1), lo, hi);
            lemma_targets_concat(s1 + code_of(*a, l1), s2, lo, hi);
            lemma_targets_concat(s1 + code_of(*a, l1) + s2, code_of(*b, l2), lo, hi);
        },
        Pattern::OneOrMore(e) => {
            let l2 = base + code_len(*e) + 1;
            lemma_code_shape(*e, base);
            let s1 = seq![Instruction::Split(base as usize, l2 as usize)];
            lemma_targets_widen(code_of(*e, base), lo, (base + code_len(*e)) as int, lo, hi);
            assert(targets_within(s1, lo, hi));
            lemma_targets_concat(code_of(*e, base), s1, lo, hi);
        },
        Pattern::ZeroOrMore(e) => {
            let l2 = base + 1;
            let l3 = l2 + code_len(*e) + 1;
            lemma_code_shape(*e, l2);
            let s1 = seq![Instruction::Split(l2 as usize, l3 as usize)];
            let s2 = seq![Instruction::Jump(base as usize)];
            lemma_targets_widen(code_of(*e, l2), l2 as int, (l2 + code_len(*e)) as int, lo, hi);
            assert(targets_within(s1, lo, hi));
            assert(targets_within(s2, lo, hi));
            lemma_targets_concat(s1, code_of(*e, l2), lo, hi);
            lemma_targets_concat(s1 + code_of(*e, l2), s2, lo, hi);
        },
        Pattern::ZeroOrOne(e) => {
            let l1 = base + 1;
            let l2 = l1 + code_len(*e);
            lemma_code_shape(*e, l1);
            let s1 = seq![Instruction::Split(l1 as usize, l2 as usize)];
            lemma_targets_widen(code_of(*e, l1), l1 as int, (l1 + code_len(*e)) as int, lo, hi);
            assert(targets_within(s1, lo, hi));
            lemma_targets_concat(s1, code_of(*e, l1), lo, hi);
        },
    }
}

/// `lemma_code_shape` for the first `n` patterns of a list.
pub proof fn lemma_concat_shape(ps: Seq<Pattern>, n: nat, base: nat)
    requires
        n <= ps.len(),
        base + concat_len(ps, n) <= usize::MAX,
    ensures
        concat_code(ps, n, base).len() == concat_len(ps, n),
        targets_within(
            concat_code(ps, n, base),
            base as int,
            (base + concat_len(ps, n)) as int,
        ),
    decreases ps, n,
{
    if n > 0 {
        let m = (n - 1) as nat;
        let mid = base + concat_len(ps, m);
        let hi: int = (base + concat_len(ps, n)) as int;
        lemma_concat_shape(ps, m, base);
        lemma_code_shape(ps[n - 1], mid);
        lemma_targets_widen(concat_code(ps, m, base), base as int, mid as int, base as int, hi);
        lemma_targets_widen(code_of(ps[n - 1], mid), mid as int, hi, base as int, hi);
        lemma_targets_concat(
            concat_code(ps, m, base),
            code_of(ps[n - 1], mid),
            base as int,
            hi,
        );
    }
}

/// Whatever the tree, a program that fits the address space ends in `Match`
/// and jumps or splits only to addresses of its own instructions.
pub proof fn lemma_program_well_formed(p: Pattern)
    requires
        code_len(p) + 1 <= usize::MAX,
    ensures
        program_of(p).len() == code_len(p) + 1,
        well_formed(program_of(p)),
{
    lemma_code_shape(p, 0);
    let tail = seq![Instruction::Match];
    assert(targets_within(tail, 0, code_len(p) as int));
    lemma_targets_concat(code_of(p, 0), tail, 0, code_len(p) as int);
}

/// What `get_code` owes for a tree whose model is `p`: the program of `p`
/// where it fits the address space, `PCOverFlow` where it does not.
pub open spec fn compiles_to(p: Pattern, r: Result<Vec<Instruction>, CodeGenError>) -> bool {
    match r {
        Ok(code) => code_len(p) + 1 <= usize::MAX && code@ == program_of(p),
        Err(e) => e == CodeGenError::PCOverFlow && code_len(p) + 1 > usize::MAX,
    }
}

/// Compiling is a function of the tree: two runs on the same tree either both
/// fail, with the same error, or yield programs that are equal instruction
/// for instruction.
pub proof fn lemma_compile_twice(
    p: Pattern,
    first: Result<Vec<Instruction>, CodeGenError>,
    second: Result<Vec<Instruction>, CodeGenError>,
)
    requires
        compiles_to(p, first),
        compiles_to(p, second),
    ensures
        first is Ok <==> second is Ok,
        first is Ok ==> first->Ok_0@ == second->Ok_0@,
        first is Err ==> first->Err_0 == second->Err_0,
{
}

/// Compiles a syntax tree to a program for the matching machine.
///
/// The result is the program of the tree's model. It is refused with
/// `PCOverFlow` exactly when it would have more instructions than `usize` can
/// count; no other error is ever returned.
pub fn get_code(ast: &AST) -> (r: Result<Vec<Instruction>, CodeGenError>)
    ensures
        compiles_to(ast@, r),
        r is Ok ==> well_formed(r->Ok_0@),
{
    let mut generator = Generator::new();
    generator.gen_code(ast)?;
    proof {
        lemma_program_well_formed(ast@);
        assert(generator.insts@ =~= program_of(ast@));
    }
    Ok(generator.insts)
}

/// The program under construction and the address of its next instruction.
struct Generator {
    pc: usize,
    insts: Vec<Instruction>,
}

impl Generator {
    /// The next address is the number of instructions emitted so far.
    spec fn wf(&self) -> bool {
        self.pc == self.insts@.len()
    }

    /// Outcome of emitting `code` for something that takes `len` instructions:
    /// either `code` was appended, or the addresses would not fit.
    spec fn emitted(
        pre: Generator,
        post: Generator,
        r: Result<(), CodeGenError>,
        len: nat,
        code: Seq<Instruction>,
    ) -> bool {
        match r {
            Ok(()) => {
                &&& pre.pc + len <= usize::MAX
                &&& post.wf()
                &&& post.pc == pre.pc + len
                &&& post.insts@ == pre.insts@ + code
            },
            Err(e) => e == CodeGenError::PCOverFlow && pre.pc + len > usize::MAX,
        }
    }

    /// Outcome of emitting the code of pattern `p`.
    spec fn emitted_pattern(
        pre: Generator,
        post: Generator,
        r: Result<(), CodeGenError>,
        p: Pattern,
    ) -> bool {
        Self::emitted(pre, post, r, code_len(p), code_of(p, pre.pc as nat))
    }

    fn new() -> (g: Generator)
        ensures
            g.wf(),
            g.pc == 0,
            g.insts@ == Seq::<Instruction>::empty(),
    {
        Generator { pc: 0, insts: Vec::new() }
    }

    /// Emits the code of the whole tree, then `Match`.
    fn gen_code(&mut self, ast: &AST) -> (r: Result<(), CodeGenError>)
        requires
            old(self).wf(),
        ensures
            Self::emitted(
                *old(self),
                *final(self),
                r,
                code_len(ast@) + 1,
                code_of(ast@, old(self).pc as nat) + seq![Instruction::Match],
            ),
    {
        self.gen_expr(ast)?;
        self.inc_pc()?;
        self.insts.push(Instruction::Match);
        proof {
            assert(self.insts@ =~= old(self).insts@ + (code_of(ast@, old(self).pc as nat)
                + seq![Instruction::Match]));
        }
        Ok(())
    }

    /// Emits the code of one tree.
    fn gen_expr(&mut self, ast: &AST) -> (r: Result<(), CodeGenError>)
        requires
            old(self).wf(),
        ensures
            Self::emitted_pattern(*old(self), *final(self), r, ast@),
        decreases depth(ast@), 1nat,
    {
        match ast {
            AST::Literal(c) => self.gen_char(*c),
            AST::Alternation(e1, e2) => self.gen_or(e1, e2),
            AST::OneOrMore(e) => self.gen_plus(e),
            AST::ZeroOrMore(e) => self.gen_star(e),
            AST::ZeroOrOne(e) => self.gen_question(e),
            AST::Concat(v) => {
                proof {
                    assert(ast@ == Pattern::Concat(models(v@))) by {
                        assert(ast@->Concat_0 =~= models(v@));
                    }
                }
                self.gen_seq(v)
            },
        }
    }

    /// Emits `char c`.
    fn gen_char(&mut self, c: char) -> (r: Result<(), CodeGenError>)
        requires
            old(self).wf(),
        ensures
            Self::emitted_pattern(*old(self), *final(self), r, Pattern::Literal(c)),
    {
        let inst = Instruction::Char(c);
        self.insts.push(inst);
        self.inc_pc()?;
        proof {
            assert(self.insts@ =~= old(self).insts@ + code_of(
                Pattern::Literal(c),
                old(self).pc as nat,
            ));
        }
        Ok(())
    }

    /// Emits the code of an alternation:
    ///
    /// ```text
    ///     split L1, L2
    /// L1: code of e1
    ///     jump L3
    /// L2: code of e2
    /// L3:
    /// ```
    fn gen_or(&mut self, e1: &AST, e2: &AST) -> (r: Result<(), CodeGenError>)
        requires
            old(self).wf(),
        ensures
            Self::emitted_pattern(
                *old(self),
                *final(self),
                r,
                Pattern::Alternation(Box::new(e1@), Box::new(e2@)),
            ),
        decreases
                1 + if depth(e1@) >= depth(e2@) {
                    depth(e1@)
                } else {
                    depth(e2@)
                },
                0nat,
    {
        // split L1, L2; L2 is not known yet
        let split_addr = self.pc;
        self.inc_pc()?;
        let split = Instruction::Split(self.pc, 0);
        self.insts.push(split);

        // L1: code of e1
        self.gen_expr(e1)?;

        // jump L3; L3 is not known yet
        let jmp_addr = self.pc;
        self.insts.push(Instruction::Jump(0));

        // L2 is the next address
        self.inc_pc()?;
        if split_addr >= self.insts.len() {
            return Err(CodeGenError::FailOr);
        }
        match self.insts[split_addr] {
            Instruction::Split(l1, _) => {
                self.insts.set(split_addr, Instruction::Split(l1, self.pc));
            },
            _ => {
                return Err(CodeGenError::FailOr);
            },
        }

        // L2: code of e2
        self.gen_expr(e2)?;

        // L3 is the next address
        if jmp_addr >= self.insts.len() {
            return Err(CodeGenError::FailOr);
        }
        match self.insts[jmp_addr] {
            Instruction::Jump(_) => {
                self.insts.set(jmp_addr, Instruction::Jump(self.pc));
            },
            _ => {
                return Err(CodeGenError::FailOr);
            },
        }
        proof {
            let p = Pattern::Alternation(Box::new(e1@), Box::new(e2@));
            lemma_code_shape(p, old(self).pc as nat);
            assert(self.insts@ =~= old(self).insts@ + code_of(p, old(self).pc as nat));
        }
        Ok(())
    }

    /// Emits the code of a zero-or-one branch:
    ///
    /// ```text
    ///     split L1, L2
    /// L1: code of e
    /// L2:
    /// ```
    fn gen_question(&mut self, e: &AST) -> (r: Result<(), CodeGenError>)
        requires
            old(self).wf(),
        ensures
            Self::emitted_pattern(*old(self), *final(self), r, Pattern::ZeroOrOne(Box::new(e@))),
        decreases 1 + depth(e@), 0nat,
    {
        // split L1, L2; L2 is not known yet
        let split_addr = self.pc;
        self.inc_pc()?;
        let split = Instruction::Split(self.pc, 0);
        self.insts.push(split);

        // L1: code of e
        self.gen_expr(e)?;

        // L2 is the next address
        if split_addr >= self.insts.len() {
            return Err(CodeGenError::FailQuestion);
        }
        match self.insts[split_addr] {
            Instruction::Split(l1, _) => {
                self.insts.set(split_addr, Instruction::Split(l1, self.pc));
            },
            _ => {
                return Err(CodeGenError::FailQuestion);
            },
        }
        proof {
            let p = Pattern::ZeroOrOne(Box::new(e@));
            lemma_code_shape(p, old(self).pc as nat);
            assert(self.insts@ =~= old(self).insts@ + code_of(p, old(self).pc as nat));
        }
        Ok(())
    }

    /// Emits the code of a one-or-more loop:
    ///
    /// ```text
    /// L1: code of e
    ///     split L1, L2
    /// L2:
    /// ```
    fn gen_plus(&mut self, e: &AST) -> (r: Result<(), CodeGenError>)
        requires
            old(self).wf(),
        ensures
            Self::emitted_pattern(*old(self), *final(self), r, Pattern::OneOrMore(Box::new(e@))),
        decreases 1 + depth(e@), 0nat,
    {
        // L1: code of e
        let l1 = self.pc;
        self.gen_expr(e)?;

        // split L1, L2
        self.inc_pc()?;
        let split = Instruction::Split(l1, self.pc);
        self.insts.push(split);
        proof {
            let p = Pattern::OneOrMore(Box::new(e@));
            lemma_code_shape(p, old(self).pc as nat);
            assert(self.insts@ =~= old(self).insts@ + code_of(p, old(self).pc as nat));
        }
        Ok(())
    }

    /// Emits the code of a zero-or-more loop:
    ///
    /// ```text
    /// L1: split L2, L3
    /// L2: code of e
    ///     jump L1
    /// L3:
    /// ```
    fn gen_star(&mut self, e: &AST) -> (r: Result<(), CodeGenError>)
        requires
            old(self).wf(),
        ensures
            Self::emitted_pattern(*old(self), *final(self), r, Pattern::ZeroOrMore(Box::new(e@))),
        decreases 1 + depth(e@), 0nat,
    {
        // L1: split L2, L3; L3 is not known yet
        let l1 = self.pc;
        self.inc_pc()?;
        let split = Instruction::Split(self.pc, 0);
        self.insts.push(split);

        // L2: code of e
        self.gen_expr(e)?;

        // jump L1
        self.inc_pc()?;
        self.insts.push(Instruction::Jump(l1));

        // L3 is the next address
        if l1 >= self.insts.len() {
            return Err(CodeGenError::FailStar);
        }
        match self.insts[l1] {
            Instruction::Split(l2, _) => {
                self.insts.set(l1, Instruction::Split(l2, self.pc));
            },
            _ => {
                return Err(CodeGenError::FailStar);
            },
        }
        proof {
            let p = Pattern::ZeroOrMore(Box::new(e@));
            lemma_code_shape(p, old(self).pc as nat);
            assert(self.insts@ =~= old(self).insts@ + code_of(p, old(self).pc as nat));
        }
        Ok(())
    }

    /// Emits the code of each tree of a sequence, in order.
    fn gen_seq(&mut self, exprs: &Vec<AST>) -> (r: Result<(), CodeGenError>)
        requires
            old(self).wf(),
        ensures
            Self::emitted_pattern(*old(self), *final(self), r, Pattern::Concat(models(exprs@))),
        decreases 1 + max_depth(models(exprs@), exprs@.len()), 0nat,
    {
        let ghost ps = models(exprs@);
        let ghost base = self.pc as nat;
        let mut i: usize = 0;
        while i < exprs.len()
            invariant
                i <= exprs.len(),
                ps == models(exprs@),
                base == old(self).pc,
                self.wf(),
                self.pc == base + concat_len(ps, i as nat),
                self.insts@ == old(self).insts@ + concat_code(ps, i as nat, base),
            decreases exprs.len() - i,
        {
            proof {
                lemma_max_depth_bounds(ps, exprs@.len(), i as int);
                lemma_concat_len_grows(ps, (i + 1) as nat, exprs@.len());
            }
            self.gen_expr(&exprs[i])?;
            proof {
                assert(self.insts@ =~= old(self).insts@ + concat_code(ps, (i + 1) as nat, base));
            }
            i += 1;
        }
        Ok(())
    }

    /// Moves to the next address, unless there is none.
    fn inc_pc(&mut self) -> (r: Result<(), CodeGenError>)
        ensures
            final(self).insts == old(self).insts,
            match r {
                Ok(()) => old(self).pc < usize::MAX && final(self).pc == old(self).pc + 1,
                Err(e) => {
                    &&& e == CodeGenError::PCOverFlow
                    &&& old(self).pc == usize::MAX
                    &&& final(self).pc == old(self).pc
                },
            },
    {
        match self.pc.checked_add(1) {
            Some(next) => {
                self.pc = next;
                Ok(())
            },
            None => Err(CodeGenError::PCOverFlow),
        }
    }
}

/// The code of a longer prefix of a list is at least as long.
pub proof fn lemma_concat_len_grows(ps: Seq<Pattern>, m: nat, n: nat)
    requires
        m <= n <= ps.len(),
    ensures
        concat_len(ps, m) <= concat_len(ps, n),
    decreases n,
{
    if m < n {
        lemma_concat_len_grows(ps, m, (n - 1) as nat);
    }
}

} // verus!
