//! The grammar of patterns, stated over stretches of the pattern's text, and
//! the proof that the parser gives a text a tree exactly when the grammar
//! does.

use super::language::between;
use super::parser::{
    close, depth, fold_alts, fold_seq, is_escapable, lemma_escape_reads_literal,
    lemma_fold_alts_last, max_depth, parse_spec, repeated, scan, scan_start, scan_step, Level,
    ParseError, Pattern, Scan,
};
use vstd::prelude::*;

verus! {

/// The characters from position `i` up to `j` are an element without a
/// repetition operator, with tree `p`: a character that has no meaning of its
/// own, an escape marker with a character that can be escaped, or a pattern in
/// parentheses.
pub open spec fn atom(chars: Seq<char>, i: int, j: int, p: Pattern) -> bool
    decreases j - i, 0nat, 0nat,
{
    &&& 0 <= i < j <= chars.len()
    &&& {
        ||| j == i + 1 && !is_escapable(chars[i]) && p == Pattern::Literal(chars[i])
        ||| j == i + 2 && chars[i] == '\\' && is_escapable(chars[i + 1]) && p == Pattern::Literal(
            chars[i + 1],
        )
        ||| j >= i + 2 && chars[i] == '(' && chars[j - 1] == ')' && alt(chars, i + 1, j - 1, p)
    }
}

/// The characters from position `i` up to `j` are an element with tree `p`:
/// an element without repetition operator, or an element followed by one
/// more repetition operator.
pub open spec fn item(chars: Seq<char>, i: int, j: int, p: Pattern) -> bool
    decreases j - i, 1nat, 0nat,
{
    ||| atom(chars, i, j, p)
    ||| {
        &&& 0 <= i < j - 1
        &&& j <= chars.len()
        &&& match p {
            Pattern::OneOrMore(q) => chars[j - 1] == '+' && item(chars, i, j - 1, *q),
            Pattern::ZeroOrMore(q) => chars[j - 1] == '*' && item(chars, i, j - 1, *q),
            Pattern::ZeroOrOne(q) => chars[j - 1] == '?' && item(chars, i, j - 1, *q),
            _ => false,
        }
    }
}

/// The characters from position `i` up to `j` are a run of elements with the
/// trees `ps`.
pub open spec fn run(chars: Seq<char>, i: int, j: int, ps: Seq<Pattern>) -> bool
    decreases j - i, 2nat, ps.len(),
{
    if ps.len() == 0 {
        0 <= i == j <= chars.len()
    } else {
        exists|mid: int|
            {
                &&& #[trigger] between(i, mid, j)
                &&& run(chars, i, mid, ps.drop_last())
                &&& item(chars, mid, j, ps.last())
            }
    }
}

/// The characters from position `i` up to `j` are one alternative with tree
/// `q`: a single element with that tree, or a run of no or several elements
/// of which `q` is the concatenation.
pub open spec fn branch(chars: Seq<char>, i: int, j: int, q: Pattern) -> bool
    decreases j - i, 3nat, 0nat,
{
    &&& i <= j
    &&& {
        ||| run(chars, i, j, seq![q])
        ||| q matches Pattern::Concat(ps) && ps.len() != 1 && run(chars, i, j, ps)
    }
}

/// The characters from position `i` up to `j` are a pattern with tree `p`:
/// one alternative, or an alternative, a `|` and a pattern.
pub open spec fn alt(chars: Seq<char>, i: int, j: int, p: Pattern) -> bool
    decreases j - i, 4nat, 0nat,
{
    ||| branch(chars, i, j, p)
    ||| p matches Pattern::Alternation(a, b) && exists|mid: int|
        {
            &&& #[trigger] between(i, mid, j)
            &&& 0 <= mid < j <= chars.len()
            &&& chars[mid] == '|'
            &&& branch(chars, i, mid, *a)
            &&& alt(chars, mid + 1, j, *b)
        }
}

/// The text is not empty and is a pattern with tree `p`, all of it or all of
/// it but an escape marker at its end.
pub open spec fn grammatical(chars: Seq<char>, p: Pattern) -> bool {
    &&& chars.len() > 0
    &&& {
        ||| alt(chars, 0, chars.len() as int, p)
        ||| chars.last() == '\\' && alt(chars, 0, chars.len() - 1, p)
    }
}

/// What the parser knows after one more character.
pub proof fn lemma_scan_next(chars: Seq<char>, n: int, st: Scan)
    requires
        0 <= n < chars.len(),
        scan(chars, n as nat) == Ok::<Scan, ParseError>(st),
    ensures
        scan(chars, (n + 1) as nat) == scan_step(st, n, chars[n]),
{
    assert(scan(chars, ((n + 1) as nat - 1) as nat) == scan(chars, n as nat));
}

/// Reading an element adds its tree to the run under way.
pub proof fn lemma_item_scans(chars: Seq<char>, i: int, j: int, p: Pattern, st: Scan)
    requires
        0 <= i,
        scan(chars, i as nat) == Ok::<Scan, ParseError>(st),
        !st.escaped,
        item(chars, i, j, p),
    ensures
        scan(chars, j as nat) == Ok::<Scan, ParseError>(Scan { seq: st.seq.push(p), ..st }),
    decreases j - i, 1nat,
{
    if atom(chars, i, j, p) {
        lemma_atom_scans(chars, i, j, p, st);
    } else {
        let q = match p {
            Pattern::OneOrMore(q) => *q,
            Pattern::ZeroOrMore(q) => *q,
            Pattern::ZeroOrOne(q) => *q,
            _ => p,
        };
        lemma_item_scans(chars, i, j - 1, q, st);
        let before = Scan { seq: st.seq.push(q), ..st };
        lemma_scan_next(chars, j - 1, before);
        assert(before.seq.drop_last() =~= st.seq);
        assert(repeated(chars[j - 1], q) == p);
    }
}

/// Reading an element without repetition operator adds its tree to the run
/// under way.
pub proof fn lemma_atom_scans(chars: Seq<char>, i: int, j: int, p: Pattern, st: Scan)
    requires
        0 <= i,
        scan(chars, i as nat) == Ok::<Scan, ParseError>(st),
        !st.escaped,
        atom(chars, i, j, p),
    ensures
        scan(chars, j as nat) == Ok::<Scan, ParseError>(Scan { seq: st.seq.push(p), ..st }),
    decreases j - i, 0nat,
{
    if j == i + 1 && !is_escapable(chars[i]) && p == Pattern::Literal(chars[i]) {
        lemma_scan_next(chars, i, st);
    } else if j == i + 2 && chars[i] == '\\' && is_escapable(chars[i + 1]) && p
        == Pattern::Literal(chars[i + 1]) {
        lemma_escape_reads_literal(chars, i as nat, st);
    } else {
        lemma_scan_next(chars, i, st);
        let inner = Scan {
            seq: Seq::empty(),
            alts: Seq::empty(),
            stack: st.stack.push(Level { seq: st.seq, alts: st.alts }),
            escaped: false,
        };
        let end = lemma_alt_scans(chars, i + 1, j - 1, p, inner);
        lemma_scan_next(chars, j - 1, end);
        assert(inner.alts.push(p) =~= seq![p]);
        assert(end.stack.drop_last() =~= st.stack);
    }
}

/// Reading a run of elements adds their trees to the run under way.
pub proof fn lemma_run_scans(chars: Seq<char>, i: int, j: int, ps: Seq<Pattern>, st: Scan)
    requires
        0 <= i,
        scan(chars, i as nat) == Ok::<Scan, ParseError>(st),
        !st.escaped,
        run(chars, i, j, ps),
    ensures
        scan(chars, j as nat) == Ok::<Scan, ParseError>(Scan { seq: st.seq + ps, ..st }),
    decreases j - i, 2nat, ps.len(),
{
    if ps.len() == 0 {
        assert(st.seq + ps =~= st.seq);
    } else {
        let mid = choose|mid: int|
            {
                &&& #[trigger] between(i, mid, j)
                &&& run(chars, i, mid, ps.drop_last())
                &&& item(chars, mid, j, ps.last())
            };
        lemma_run_scans(chars, i, mid, ps.drop_last(), st);
        let before = Scan { seq: st.seq + ps.drop_last(), ..st };
        lemma_item_scans(chars, mid, j, ps.last(), before);
        assert(before.seq.push(ps.last()) =~= st.seq + ps);
    }
}

/// Reading one alternative, with no run under way, leaves a run under way of
/// which the alternative's tree is the fold. The result is that run.
pub proof fn lemma_branch_scans(chars: Seq<char>, i: int, j: int, q: Pattern, st: Scan) -> (ps:
    Seq<Pattern>)
    requires
        0 <= i,
        scan(chars, i as nat) == Ok::<Scan, ParseError>(st),
        !st.escaped,
        st.seq.len() == 0,
        branch(chars, i, j, q),
    ensures
        scan(chars, j as nat) == Ok::<Scan, ParseError>(Scan { seq: ps, ..st }),
        fold_seq(ps) == q,
    decreases j - i, 3nat,
{
    let ps = if run(chars, i, j, seq![q]) {
        seq![q]
    } else {
        q->Concat_0
    };
    lemma_run_scans(chars, i, j, ps, st);
    assert(st.seq + ps =~= ps);
    ps
}

/// Reading a pattern, with no run under way, leaves open the groups that
/// were open, and adds the pattern's tree to the alternatives as one
/// alternative once the pattern is closed. The result is what the parser
/// knows after the pattern.
pub proof fn lemma_alt_scans(chars: Seq<char>, i: int, j: int, p: Pattern, st: Scan) -> (end: Scan)
    requires
        0 <= i,
        scan(chars, i as nat) == Ok::<Scan, ParseError>(st),
        !st.escaped,
        st.seq.len() == 0,
        alt(chars, i, j, p),
    ensures
        scan(chars, j as nat) == Ok::<Scan, ParseError>(end),
        !end.escaped,
        end.stack == st.stack,
        close(end.seq, end.alts) == fold_alts(st.alts.push(p)),
    decreases j - i, 4nat,
{
    if branch(chars, i, j, p) {
        let ps = lemma_branch_scans(chars, i, j, p, st);
        Scan { seq: ps, ..st }
    } else {
        let a = *p->Alternation_0;
        let b = *p->Alternation_1;
        let mid = choose|mid: int|
            {
                &&& #[trigger] between(i, mid, j)
                &&& 0 <= mid < j <= chars.len()
                &&& chars[mid] == '|'
                &&& branch(chars, i, mid, a)
                &&& alt(chars, mid + 1, j, b)
            };
        let ps = lemma_branch_scans(chars, i, mid, a, st);
        let first = Scan { seq: ps, ..st };
        lemma_scan_next(chars, mid, first);
        let next = Scan { seq: Seq::empty(), alts: st.alts.push(a), ..st };
        let end = lemma_alt_scans(chars, mid + 1, j, b, next);
        lemma_fold_alts_last(st.alts, a, b);
        end
    }
}

/// The parser gives a grammatical pattern its tree.
pub proof fn lemma_grammatical_parses(chars: Seq<char>, p: Pattern)
    requires
        grammatical(chars, p),
    ensures
        parse_spec(chars) == Ok::<Pattern, ParseError>(p),
{
    let st = scan_start();
    assert(st.alts.push(p) =~= seq![p]);
    if alt(chars, 0, chars.len() as int, p) {
        let end = lemma_alt_scans(chars, 0, chars.len() as int, p, st);
    } else {
        let end = lemma_alt_scans(chars, 0, chars.len() - 1, p, st);
        lemma_scan_next(chars, chars.len() - 1, end);
    }
}

/// A character without a meaning of its own is an element.
pub proof fn lemma_plain_atom(chars: Seq<char>, i: int, j: int, p: Pattern)
    requires
        0 <= i < chars.len(),
        j == i + 1,
        !is_escapable(chars[i]),
        p == Pattern::Literal(chars[i]),
    ensures
        atom(chars, i, j, p),
        item(chars, i, j, p),
{
    assert(atom(chars, i, j, p));
}

/// An escape marker and a character that can be escaped are an element.
pub proof fn lemma_escaped_atom(chars: Seq<char>, i: int, j: int, p: Pattern)
    requires
        0 <= i,
        j == i + 2,
        j <= chars.len(),
        chars[i] == '\\',
        is_escapable(chars[i + 1]),
        p == Pattern::Literal(chars[i + 1]),
    ensures
        atom(chars, i, j, p),
        item(chars, i, j, p),
{
    assert(atom(chars, i, j, p));
}

/// An element is not empty and lies within the text.
pub proof fn lemma_item_bounds(chars: Seq<char>, i: int, j: int, p: Pattern)
    requires
        item(chars, i, j, p),
    ensures
        0 <= i < j <= chars.len(),
{
    if atom(chars, i, j, p) {
    }
}

/// A run of elements lies within the text.
pub proof fn lemma_run_bounds(chars: Seq<char>, i: int, j: int, ps: Seq<Pattern>)
    requires
        run(chars, i, j, ps),
    ensures
        0 <= i <= j <= chars.len(),
    decreases ps.len(),
{
    if ps.len() > 0 {
        let mid = choose|mid: int|
            {
                &&& #[trigger] between(i, mid, j)
                &&& run(chars, i, mid, ps.drop_last())
                &&& item(chars, mid, j, ps.last())
            };
        lemma_run_bounds(chars, i, mid, ps.drop_last());
        lemma_item_bounds(chars, mid, j, ps.last());
    }
}

/// A run followed by an element is a run.
pub proof fn lemma_run_push(
    chars: Seq<char>,
    i: int,
    mid: int,
    j: int,
    ps: Seq<Pattern>,
    p: Pattern,
)
    requires
        run(chars, i, mid, ps),
        item(chars, mid, j, p),
    ensures
        run(chars, i, j, ps.push(p)),
{
    lemma_run_bounds(chars, i, mid, ps);
    lemma_item_bounds(chars, mid, j, p);
    assert(between(i, mid, j));
    assert(ps.push(p).drop_last() =~= ps);
}

/// A run is one alternative, with the fold of its trees as tree.
pub proof fn lemma_run_branch(chars: Seq<char>, i: int, j: int, ps: Seq<Pattern>)
    requires
        run(chars, i, j, ps),
    ensures
        branch(chars, i, j, fold_seq(ps)),
{
    lemma_run_bounds(chars, i, j, ps);
    if ps.len() == 1 {
        assert(ps =~= seq![ps[0]]);
    }
}

/// The characters from position `b` up to `s` are the alternatives with the
/// trees `alts`, each followed by `|`.
pub open spec fn read_alts(chars: Seq<char>, b: int, s: int, alts: Seq<Pattern>) -> bool
    decreases alts.len(),
{
    if alts.len() == 0 {
        0 <= b == s <= chars.len()
    } else {
        exists|t: int|
            {
                &&& #[trigger] between(b, t, s)
                &&& 0 <= t < s <= chars.len()
                &&& chars[s - 1] == '|'
                &&& read_alts(chars, b, t, alts.drop_last())
                &&& branch(chars, t, s - 1, alts.last())
            }
    }
}

/// The characters from position `b` up to `m` are the alternatives with the
/// trees `alts`, each followed by `|`, and then a run with the trees `seq`.
pub open spec fn read_so_far(
    chars: Seq<char>,
    b: int,
    m: int,
    seq: Seq<Pattern>,
    alts: Seq<Pattern>,
) -> bool {
    exists|s: int|
        {
            &&& #[trigger] between(b, s, m)
            &&& read_alts(chars, b, s, alts)
            &&& run(chars, s, m, seq)
        }
}

/// Alternatives that were read, followed by a pattern, are a pattern: that of
/// the alternatives with the pattern's tree as one more alternative.
pub proof fn lemma_read_alts_alt(
    chars: Seq<char>,
    b: int,
    s: int,
    m: int,
    alts: Seq<Pattern>,
    p: Pattern,
)
    requires
        read_alts(chars, b, s, alts),
        alt(chars, s, m, p),
        s <= m <= chars.len(),
    ensures
        alt(chars, b, m, fold_alts(alts.push(p))),
    decreases alts.len(),
{
    if alts.len() == 0 {
        assert(alts.push(p) =~= seq![p]);
    } else {
        let t = choose|t: int|
            {
                &&& #[trigger] between(b, t, s)
                &&& 0 <= t < s <= chars.len()
                &&& chars[s - 1] == '|'
                &&& read_alts(chars, b, t, alts.drop_last())
                &&& branch(chars, t, s - 1, alts.last())
            };
        let both = Pattern::Alternation(Box::new(alts.last()), Box::new(p));
        assert(between(t, s - 1, m));
        assert(alt(chars, s - 1 + 1, m, p));
        assert(alt(chars, t, m, both));
        lemma_read_alts_alt(chars, b, t, m, alts.drop_last(), both);
        lemma_fold_alts_last(alts.drop_last(), alts.last(), p);
        assert(alts.drop_last().push(alts.last()) =~= alts);
    }
}

/// What was read of a group is, once the group is closed, a pattern.
pub proof fn lemma_read_closes(
    chars: Seq<char>,
    b: int,
    m: int,
    seq: Seq<Pattern>,
    alts: Seq<Pattern>,
)
    requires
        read_so_far(chars, b, m, seq, alts),
    ensures
        b <= m,
        alt(chars, b, m, close(seq, alts)),
{
    let s = choose|s: int|
        {
            &&& #[trigger] between(b, s, m)
            &&& read_alts(chars, b, s, alts)
            &&& run(chars, s, m, seq)
        };
    lemma_run_branch(chars, s, m, seq);
    lemma_run_bounds(chars, s, m, seq);
    lemma_read_alts_alt(chars, b, s, m, alts, fold_seq(seq));
}

/// Where the content of the open group `k` starts: behind its `(`, the
/// positions of which `opens` holds, or at the start of the text.
pub open spec fn begin(opens: Seq<int>, k: int) -> int {
    if k <= 0 {
        0
    } else {
        opens[k - 1] + 1
    }
}

/// What the parser has set aside for open group `k` is what stands between
/// the start of the group around it and its own `(`.
pub open spec fn level_read(chars: Seq<char>, opens: Seq<int>, stack: Seq<Level>, k: int) -> bool {
    &&& 0 <= opens[k] < chars.len()
    &&& chars[opens[k]] == '('
    &&& read_so_far(chars, begin(opens, k), opens[k], stack[k].seq, stack[k].alts)
}

/// What the parser has set aside for each open group is what stands before
/// the group. `opens` holds the positions of the `(` of the open groups.
pub open spec fn levels_read(chars: Seq<char>, opens: Seq<int>, stack: Seq<Level>) -> bool {
    &&& opens.len() == stack.len()
    &&& forall|k: int| 0 <= k < opens.len() ==> #[trigger] level_read(chars, opens, stack, k)
}

/// What the parser knows after `n` characters is what these characters are
/// by the grammar. `opens` holds the positions of the `(` of the open groups.
pub open spec fn explains(chars: Seq<char>, n: int, st: Scan, opens: Seq<int>) -> bool {
    &&& levels_read(chars, opens, st.stack)
    &&& st.escaped ==> n >= 1 && chars[n - 1] == '\\'
    &&& read_so_far(
        chars,
        begin(opens, opens.len() as int),
        if st.escaped {
            n - 1
        } else {
            n
        },
        st.seq,
        st.alts,
    )
}

/// What was read, followed by an element, is what was read with one more tree
/// in the run under way.
pub proof fn lemma_read_item(
    chars: Seq<char>,
    b: int,
    m: int,
    end: int,
    seq: Seq<Pattern>,
    alts: Seq<Pattern>,
    p: Pattern,
)
    requires
        read_so_far(chars, b, m, seq, alts),
        item(chars, m, end, p),
    ensures
        read_so_far(chars, b, end, seq.push(p), alts),
{
    let s = choose|s: int|
        {
            &&& #[trigger] between(b, s, m)
            &&& read_alts(chars, b, s, alts)
            &&& run(chars, s, m, seq)
        };
    lemma_item_bounds(chars, m, end, p);
    lemma_run_push(chars, s, m, end, seq, p);
    assert(between(b, s, end));
}

/// What was read, followed by a repetition operator, is what was read with
/// the last tree of the run under way repeated.
pub proof fn lemma_read_repeat(
    chars: Seq<char>,
    b: int,
    m: int,
    end: int,
    seq: Seq<Pattern>,
    alts: Seq<Pattern>,
)
    requires
        read_so_far(chars, b, m, seq, alts),
        seq.len() > 0,
        0 <= m < chars.len(),
        end == m + 1,
        chars[m] == '+' || chars[m] == '*' || chars[m] == '?',
    ensures
        read_so_far(
            chars,
            b,
            end,
            seq.drop_last().push(repeated(chars[m], seq.last())),
            alts,
        ),
{
    let s = choose|s: int|
        {
            &&& #[trigger] between(b, s, m)
            &&& read_alts(chars, b, s, alts)
            &&& run(chars, s, m, seq)
        };
    let mid = choose|mid: int|
        {
            &&& #[trigger] between(s, mid, m)
            &&& run(chars, s, mid, seq.drop_last())
            &&& item(chars, mid, m, seq.last())
        };
    lemma_item_bounds(chars, mid, m, seq.last());
    let rep = repeated(chars[m], seq.last());
    assert(item(chars, mid, end, rep));
    lemma_run_push(chars, s, mid, end, seq.drop_last(), rep);
    assert(between(b, s, end));
}

/// What was read, followed by `|`, is what was read with the run under way
/// folded into one more alternative.
pub proof fn lemma_read_bar(
    chars: Seq<char>,
    b: int,
    m: int,
    end: int,
    seq: Seq<Pattern>,
    alts: Seq<Pattern>,
)
    requires
        read_so_far(chars, b, m, seq, alts),
        0 <= m < chars.len(),
        end == m + 1,
        chars[m] == '|',
    ensures
        read_so_far(chars, b, end, Seq::empty(), alts.push(fold_seq(seq))),
{
    let s = choose|s: int|
        {
            &&& #[trigger] between(b, s, m)
            &&& read_alts(chars, b, s, alts)
            &&& run(chars, s, m, seq)
        };
    let more = alts.push(fold_seq(seq));
    lemma_run_branch(chars, s, m, seq);
    assert(between(b, s, end));
    assert(more.drop_last() =~= alts);
    assert(chars[end - 1] == '|');
    assert(read_alts(chars, b, end, more));
    assert(between(b, end, end));
    assert(run(chars, end, end, Seq::<Pattern>::empty()));
}

/// Nothing has been read of a group that has just been opened.
pub proof fn lemma_read_nothing(chars: Seq<char>, b: int)
    requires
        0 <= b <= chars.len(),
    ensures
        read_so_far(chars, b, b, Seq::empty(), Seq::empty()),
{
    assert(between(b, b, b));
    assert(read_alts(chars, b, b, Seq::<Pattern>::empty()));
    assert(run(chars, b, b, Seq::<Pattern>::empty()));
}

/// At a `(`, what was read of the group around it is set aside.
pub proof fn lemma_levels_open(
    chars: Seq<char>,
    opens: Seq<int>,
    stack: Seq<Level>,
    m: int,
    seq: Seq<Pattern>,
    alts: Seq<Pattern>,
)
    requires
        levels_read(chars, opens, stack),
        read_so_far(chars, begin(opens, opens.len() as int), m, seq, alts),
        0 <= m < chars.len(),
        chars[m] == '(',
    ensures
        levels_read(chars, opens.push(m), stack.push(Level { seq, alts })),
        begin(opens.push(m), opens.push(m).len() as int) == m + 1,
{
    let opens2 = opens.push(m);
    let stack2 = stack.push(Level { seq, alts });
    assert forall|k: int| 0 <= k < opens2.len() implies #[trigger] level_read(
        chars,
        opens2,
        stack2,
        k,
    ) by {
        if k < opens.len() {
            assert(level_read(chars, opens, stack, k));
            assert(begin(opens2, k) == begin(opens, k));
        } else {
            assert(begin(opens2, k) == begin(opens, opens.len() as int));
        }
    }
}

/// At a `)`, what was set aside for the group around the closed one is taken
/// up, with the tree of the closed group as one more element.
pub proof fn lemma_levels_close(
    chars: Seq<char>,
    opens: Seq<int>,
    stack: Seq<Level>,
    m: int,
    end: int,
    seq: Seq<Pattern>,
    alts: Seq<Pattern>,
)
    requires
        levels_read(chars, opens, stack),
        stack.len() > 0,
        read_so_far(chars, begin(opens, opens.len() as int), m, seq, alts),
        0 <= m < chars.len(),
        end == m + 1,
        chars[m] == ')',
    ensures
        levels_read(chars, opens.drop_last(), stack.drop_last()),
        read_so_far(
            chars,
            begin(opens.drop_last(), opens.len() - 1),
            end,
            stack.last().seq.push(close(seq, alts)),
            stack.last().alts,
        ),
{
    let top = opens.len() - 1;
    let open = opens[top];
    let opens2 = opens.drop_last();
    let stack2 = stack.drop_last();
    let group = close(seq, alts);
    assert(level_read(chars, opens, stack, top));
    lemma_read_closes(chars, open + 1, m, seq, alts);
    assert(alt(chars, open + 1, end - 1, group));
    assert(atom(chars, open, end, group));
    assert(begin(opens2, top) == begin(opens, top));
    lemma_read_item(chars, begin(opens, top), open, end, stack[top].seq, stack[top].alts, group);
    assert forall|k: int| 0 <= k < opens2.len() implies #[trigger] level_read(
        chars,
        opens2,
        stack2,
        k,
    ) by {
        assert(level_read(chars, opens, stack, k));
        assert(begin(opens2, k) == begin(opens, k));
    }
}

/// Where what the parser knows is what the characters read are by the
/// grammar, it is so after one more character too. The result holds the
/// positions of the `(` of the groups that are open then.
pub proof fn lemma_step_explained(
    chars: Seq<char>,
    at: int,
    end: int,
    c: char,
    prev: Scan,
    st: Scan,
    opens0: Seq<int>,
) -> (opens: Seq<int>)
    requires
        0 <= at < chars.len(),
        end == at + 1,
        c == chars[at],
        explains(chars, at, prev, opens0),
        scan_step(prev, at, c) == Ok::<Scan, ParseError>(st),
    ensures
        explains(chars, end, st, opens),
{
    let b = begin(opens0, opens0.len() as int);
    if prev.escaped {
        let lit = Pattern::Literal(c);
        lemma_escaped_atom(chars, at - 1, end, lit);
        lemma_read_item(chars, b, at - 1, end, prev.seq, prev.alts, lit);
        opens0
    } else if c == '+' || c == '*' || c == '?' {
        lemma_read_repeat(chars, b, at, end, prev.seq, prev.alts);
        opens0
    } else if c == '(' {
        lemma_levels_open(chars, opens0, prev.stack, at, prev.seq, prev.alts);
        lemma_read_nothing(chars, end);
        opens0.push(at)
    } else if c == ')' {
        lemma_levels_close(chars, opens0, prev.stack, at, end, prev.seq, prev.alts);
        opens0.drop_last()
    } else if c == '|' {
        lemma_read_bar(chars, b, at, end, prev.seq, prev.alts);
        opens0
    } else if c == '\\' {
        opens0
    } else {
        let lit = Pattern::Literal(c);
        lemma_plain_atom(chars, at, end, lit);
        lemma_read_item(chars, b, at, end, prev.seq, prev.alts, lit);
        opens0
    }
}

/// Whatever the parser has read without error, what it knows is what the
/// characters are by the grammar. The result holds the positions of the `(`
/// of the open groups.
pub proof fn lemma_scan_explained(chars: Seq<char>, n: nat) -> (opens: Seq<int>)
    requires
        n <= chars.len(),
        scan(chars, n) is Ok,
    ensures
        explains(chars, n as int, scan(chars, n)->Ok_0, opens),
    decreases n,
{
    if n == 0 {
        lemma_read_nothing(chars, 0);
        Seq::<int>::empty()
    } else {
        let prev = scan(chars, (n - 1) as nat)->Ok_0;
        let st = scan(chars, n)->Ok_0;
        let opens0 = lemma_scan_explained(chars, (n - 1) as nat);
        lemma_step_explained(chars, n - 1, n as int, chars[n - 1], prev, st, opens0)
    }
}

/// The parser gives a text a tree exactly when the text is grammatical with
/// that tree; every other text it refuses.
pub proof fn lemma_parse_iff_grammatical(chars: Seq<char>, p: Pattern)
    ensures
        parse_spec(chars) == Ok::<Pattern, ParseError>(p) <==> grammatical(chars, p),
{
    if grammatical(chars, p) {
        lemma_grammatical_parses(chars, p);
    }
    if parse_spec(chars) == Ok::<Pattern, ParseError>(p) {
        let n = chars.len();
        let st = scan(chars, n)->Ok_0;
        let opens = lemma_scan_explained(chars, n);
        let m = if st.escaped {
            n - 1
        } else {
            n as int
        };
        lemma_read_closes(chars, 0, m, st.seq, st.alts);
    }
}

/// The tree of an element is no deeper than the element is long.
pub proof fn lemma_item_depth(chars: Seq<char>, i: int, j: int, p: Pattern)
    requires
        item(chars, i, j, p),
    ensures
        depth(p) <= j - i,
    decreases j - i, 1nat,
{
    if atom(chars, i, j, p) {
        if j >= i + 2 && chars[i] == '(' && chars[j - 1] == ')' && alt(chars, i + 1, j - 1, p) {
            lemma_alt_depth(chars, i + 1, j - 1, p);
        }
    } else {
        match p {
            Pattern::OneOrMore(q) => {
                lemma_item_depth(chars, i, j - 1, *q);
            },
            Pattern::ZeroOrMore(q) => {
                lemma_item_depth(chars, i, j - 1, *q);
            },
            Pattern::ZeroOrOne(q) => {
                lemma_item_depth(chars, i, j - 1, *q);
            },
            _ => {},
        }
    }
}

/// No tree of a run of elements is deeper than the run is long.
pub proof fn lemma_run_depth(chars: Seq<char>, i: int, j: int, ps: Seq<Pattern>, n: nat)
    requires
        run(chars, i, j, ps),
        n <= ps.len(),
    ensures
        max_depth(ps, n) <= j - i,
    decreases j - i, 2nat, ps.len(), n,
{
    lemma_run_bounds(chars, i, j, ps);
    if n > 0 {
        let mid = choose|mid: int|
            {
                &&& #[trigger] between(i, mid, j)
                &&& run(chars, i, mid, ps.drop_last())
                &&& item(chars, mid, j, ps.last())
            };
        lemma_run_depth(chars, i, j, ps, (n - 1) as nat);
        if n == ps.len() {
            lemma_item_depth(chars, mid, j, ps.last());
        } else {
            lemma_run_depth(chars, i, mid, ps.drop_last(), n);
            lemma_max_depth_prefix(ps, n);
        }
    }
}

/// The largest depth among the first `n` patterns of a list does not depend
/// on the last pattern of the list, unless that is one of them.
pub proof fn lemma_max_depth_prefix(ps: Seq<Pattern>, n: nat)
    requires
        n < ps.len(),
    ensures
        max_depth(ps, n) == max_depth(ps.drop_last(), n),
    decreases n,
{
    if n > 0 {
        lemma_max_depth_prefix(ps, (n - 1) as nat);
        assert(ps.drop_last()[n - 1] == ps[n - 1]);
    }
}

/// The tree of a pattern is at most one deeper than the pattern is long.
pub proof fn lemma_alt_depth(chars: Seq<char>, i: int, j: int, p: Pattern)
    requires
        alt(chars, i, j, p),
    ensures
        depth(p) <= j - i + 1,
    decreases j - i, 4nat,
{
    if branch(chars, i, j, p) {
        if run(chars, i, j, seq![p]) {
            lemma_run_depth(chars, i, j, seq![p], 1);
            assert(max_depth(seq![p], 0) == 0);
            assert(seq![p][0] == p);
        } else {
            let ps = p->Concat_0;
            lemma_run_depth(chars, i, j, ps, ps.len());
        }
    } else {
        let a = *p->Alternation_0;
        let b = *p->Alternation_1;
        let mid = choose|mid: int|
            {
                &&& #[trigger] between(i, mid, j)
                &&& 0 <= mid < j <= chars.len()
                &&& chars[mid] == '|'
                &&& branch(chars, i, mid, a)
                &&& alt(chars, mid + 1, j, b)
            };
        assert(alt(chars, i, mid, a));
        lemma_alt_depth(chars, i, mid, a);
        lemma_alt_depth(chars, mid + 1, j, b);
    }
}

/// The tree that the parser gives a pattern is at most one deeper than the
/// pattern has characters.
pub proof fn lemma_parsed_depth(chars: Seq<char>, p: Pattern)
    requires
        parse_spec(chars) == Ok::<Pattern, ParseError>(p),
    ensures
        depth(p) <= chars.len() + 1,
{
    lemma_parse_iff_grammatical(chars, p);
    if alt(chars, 0, chars.len() as int, p) {
        lemma_alt_depth(chars, 0, chars.len() as int, p);
    } else {
        lemma_alt_depth(chars, 0, chars.len() - 1, p);
    }
}

} // verus!
