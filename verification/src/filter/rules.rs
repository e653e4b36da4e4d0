//! The rewriting system on terms. Each function here says, as mathematics,
//! what the executable function of the same purpose computes on handles.

use crate::filter::term::{chain, sorts_before, spread, subtract, weight, Term};
use vstd::prelude::*;

verus! {

/// The most steps that one run of `iterate_term` takes.
pub const STEP_LIMIT: usize = 1000;

/// The most rounds of simplifying and iterating that `optimize_term` takes
/// after its first, before it settles for what it has.
pub const ROUND_LIMIT: usize = 1000;

/// The members of a composition with one level of nesting removed: a member
/// that is itself a composition is replaced by its members.
pub open spec fn splice(ts: Seq<Term>) -> Seq<Term>
    decreases ts.len(),
{
    if ts.len() == 0 {
        Seq::empty()
    } else {
        let init = splice(ts.drop_last());
        match ts.last() {
            Term::Compose(v) => init + v,
            f => init.push(f),
        }
    }
}

/// `flatten_term(c)` for a `c` of smaller spread than `t`. Every operand
/// that `flatten_pass` hands over is smaller (`lemma_flatten_operands`), so
/// this is `flatten_term(c)` wherever it is used.
pub open spec fn flatten_operand(c: Term, t: Term) -> Term
    decreases spread(t), 0nat,
{
    if spread(c) < spread(t) {
        flatten_term(c)
    } else {
        c
    }
}

/// One flattening rewrite at the root, over flattened operands: nested
/// compositions are spliced, and a chain with a composition on one side is
/// distributed over its members.
pub open spec fn flatten_pass(t: Term) -> Term
    decreases spread(t), 1nat,
{
    match t {
        Term::Compose(fs) => Term::Compose(splice(fs).map_values(|c: Term| flatten_operand(c, t))),
        Term::Chain(a, b) => match (*a, *b) {
            (_, Term::Compose(bs)) => Term::Compose(bs.map_values(|f: Term| chain(*a, f))),
            (Term::Compose(xs), _) => Term::Compose(xs.map_values(|f: Term| chain(f, *b))),
            _ => chain(flatten_operand(*a, t), flatten_operand(*b, t)),
        },
        Term::Subtract(a, b) => subtract(flatten_operand(*a, t), flatten_operand(*b, t)),
        _ => t,
    }
}

/// The flat form of a term: `flatten_pass` repeated until nothing changes.
/// A pass that changes the term lowers its spread (`lemma_flatten_shrinks`),
/// so the second test below never fails.
pub open spec fn flatten_term(t: Term) -> Term
    decreases spread(t), 2nat,
{
    let r = flatten_pass(t);
    if r != t && spread(r) < spread(t) {
        flatten_term(r)
    } else {
        r
    }
}

/// `simplify_term(c)` for a `c` of smaller weight than `t`. Every operand
/// that `simplify_pass` hands over is smaller (`lemma_simplify_operands`),
/// so this is `simplify_term(c)` wherever it is used.
pub open spec fn simplify_operand(c: Term, t: Term) -> Term
    decreases weight(t), 0nat,
{
    if weight(c) < weight(t) {
        simplify_term(c)
    } else {
        c
    }
}

/// One simplifying rewrite at the root, over simplified operands.
///
/// - The members of a composition are spliced and simplified.
/// - A chain whose second operand is a chain leans to the left instead.
/// - Two prefixes in a row are one prefix, the later one outermost; two
///   subdirectories in a row are one subdirectory.
/// - A prefix after a chain that ends in a prefix is joined with that
///   prefix, and the rest of the chain is simplified.
/// - Otherwise the operands of a chain or a subtraction are simplified.
pub open spec fn simplify_pass(t: Term) -> Term
    decreases weight(t), 1nat,
{
    match t {
        Term::Compose(fs) => Term::Compose(
            splice(fs).map_values(|c: Term| simplify_operand(c, t)),
        ),
        Term::Chain(a, b) => match (*a, *b) {
            (_, Term::Chain(x, y)) => chain(chain(*a, *x), *y),
            (Term::Prefix(x), Term::Prefix(y)) => Term::Prefix(y + x),
            (Term::Subdir(x), Term::Subdir(y)) => Term::Subdir(x + y),
            (Term::Chain(x, y), Term::Prefix(p2)) => match *y {
                Term::Prefix(p1) => chain(simplify_operand(*x, t), Term::Prefix(p2 + p1)),
                _ => chain(simplify_operand(*a, t), simplify_operand(*b, t)),
            },
            _ => chain(simplify_operand(*a, t), simplify_operand(*b, t)),
        },
        Term::Subtract(a, b) => subtract(simplify_operand(*a, t), simplify_operand(*b, t)),
        _ => t,
    }
}

/// The simplified form of a term: `simplify_pass` repeated until nothing
/// changes. A pass that changes the term lowers its weight
/// (`lemma_simplify_shrinks`), so the second test below never fails.
pub open spec fn simplify_term(t: Term) -> Term
    decreases weight(t), 2nat,
{
    let r = simplify_pass(t);
    if r != t && weight(r) < weight(t) {
        simplify_term(r)
    } else {
        r
    }
}

/// Splits a chain at its last link: the result's second component is the
/// last filter of the chain, its first is `rest` followed by all the others.
pub open spec fn last_chain_term(rest: Term, t: Term) -> (Term, Term)
    decreases t,
{
    match t {
        Term::Chain(a, b) => last_chain_term(chain(rest, *a), *b),
        _ => (rest, t),
    }
}

/// What stands before the last link of a chain.
pub open spec fn chain_init(t: Term) -> Term {
    last_chain_term(Term::Identity, t).0
}

/// The last link of a chain; a term that is no chain is its own last link.
pub open spec fn chain_last(t: Term) -> Term {
    last_chain_term(Term::Identity, t).1
}

/// Both are chains and begin with the same filter.
pub open spec fn same_head(f: Term, g: Term) -> bool {
    f is Chain && g is Chain && f->Chain_0 == g->Chain_0
}

/// The common leading filter of a non-empty list of chains, with what
/// follows it in each member.
pub open spec fn common_pre_term(ms: Seq<Term>) -> Option<(Term, Seq<Term>)> {
    if ms.len() > 0 && (forall|i: int| 0 <= i < ms.len() ==> same_head(#[trigger] ms[i], ms[0])) {
        Some((*ms[0]->Chain_0, ms.map_values(|m: Term| *m->Chain_1)))
    } else {
        None
    }
}

/// The common last link of a non-empty list of members, unless it is the
/// identity, with what precedes it in each member.
pub open spec fn common_post_term(ms: Seq<Term>) -> Option<(Term, Seq<Term>)> {
    if ms.len() > 0 && chain_last(ms[0]) != Term::Identity && (forall|i: int|
        0 <= i < ms.len() ==> chain_last(#[trigger] ms[i]) == chain_last(ms[0])) {
        Some((chain_last(ms[0]), ms.map_values(|m: Term| chain_init(m))))
    } else {
        None
    }
}

/// Whether a member joins the group that `first` opened.
pub open spec fn joins(f: Term, first: Term, by_head: bool) -> bool {
    if by_head {
        same_head(f, first)
    } else {
        chain_last(f) == chain_last(first)
    }
}

/// The list cut into runs of neighbours: a member joins the run before it
/// when it `joins` that run's first member.
pub open spec fn group_runs(ms: Seq<Term>, by_head: bool) -> Seq<Seq<Term>>
    decreases ms.len(),
{
    if ms.len() == 0 {
        Seq::empty()
    } else {
        let init = group_runs(ms.drop_last(), by_head);
        let f = ms.last();
        if init.len() > 0 && joins(f, init.last()[0], by_head) {
            init.update(init.len() - 1, init.last().push(f))
        } else {
            init.push(seq![f])
        }
    }
}

/// Neighbours grouped by their leading filter; if that groups nothing,
/// by their last link.
pub open spec fn group_term(ms: Seq<Term>) -> Seq<Seq<Term>> {
    let by_head = group_runs(ms, true);
    if by_head.len() != ms.len() {
        by_head
    } else {
        group_runs(ms, false)
    }
}

/// `x` put into a sorted list from the right: it passes every member that
/// it sorts strictly before, up to the first that it does not.
pub open spec fn insert_sorted(sorted: Seq<Term>, x: Term) -> Seq<Term>
    decreases sorted.len(),
{
    if sorted.len() > 0 && sorts_before(x, sorted.last()) {
        insert_sorted(sorted.drop_last(), x).push(sorted.last())
    } else {
        sorted.push(x)
    }
}

/// The members in path order: a stable insertion sort by `sorts_before`.
pub open spec fn prefix_sort_term(ms: Seq<Term>) -> Seq<Term>
    decreases ms.len(),
{
    if ms.len() == 0 {
        Seq::empty()
    } else {
        insert_sorted(prefix_sort_term(ms.drop_last()), ms.last())
    }
}

/// The list without repeated members: the first occurrence of each member
/// stays, in its place, and every later one is dropped.
pub open spec fn dedup(ts: Seq<Term>) -> Seq<Term>
    decreases ts.len(),
{
    if ts.len() == 0 {
        Seq::empty()
    } else {
        let init = dedup(ts.drop_last());
        if init.contains(ts.last()) {
            init
        } else {
            init.push(ts.last())
        }
    }
}

/// The list without the members equal to `x`.
pub open spec fn without(ts: Seq<Term>, x: Term) -> Seq<Term>
    decreases ts.len(),
{
    if ts.len() == 0 {
        Seq::empty()
    } else {
        let init = without(ts.drop_last(), x);
        if ts.last() == x {
            init
        } else {
            init.push(ts.last())
        }
    }
}

/// The members of `ts` that do not occur in `other`.
pub open spec fn difference(ts: Seq<Term>, other: Seq<Term>) -> Seq<Term>
    decreases ts.len(),
{
    if ts.len() == 0 {
        Seq::empty()
    } else {
        let init = difference(ts.drop_last(), other);
        if other.contains(ts.last()) {
            init
        } else {
            init.push(ts.last())
        }
    }
}

/// The members of a composition that a step keeps: without repeated
/// members and without empty filters.
pub open spec fn kept_members(fs: Seq<Term>) -> Seq<Term> {
    without(dedup(fs), Term::Empty)
}

/// The members of a composition that a step steps one by one: the kept
/// members in path order.
pub open spec fn step_members(fs: Seq<Term>) -> Seq<Term> {
    prefix_sort_term(kept_members(fs))
}

/// Member `k` is a chain that begins as member 0 does.
pub open spec fn same_head_at(ms: Seq<Term>, k: int) -> bool {
    same_head(ms[k], ms[0])
}

/// `step_term(c)` for a `c` of smaller weight than `t`. Every term that
/// `step_term` hands over is smaller (`lemma_step_operands`), so this is
/// `step_term(c)` wherever it is used.
pub open spec fn step_operand(c: Term, t: Term) -> Term
    decreases weight(t), 0nat,
{
    if weight(c) < weight(t) {
        step_term(c)
    } else {
        c
    }
}

/// One layer of optimizing rewrites.
///
/// - A subdirectory or prefix of several segments becomes a chain of its
///   first segment and the rest: first segment first for a subdirectory,
///   last for a prefix.
/// - An empty composition is the empty filter; a composition of one member
///   is that member. Of a longer one the kept members are taken; a leading
///   filter common to all is factored out, else a last link common to all,
///   else neighbours are grouped, else the members are put in path order
///   and each is stepped.
/// - A chain whose first operand is a chain leans to the right instead; an
///   identity operand is dropped; otherwise both operands are stepped.
/// - A subtraction of equal operands, from the empty filter, or of a
///   composition that holds the first operand is empty; subtracting the
///   empty filter changes nothing; a common leading filter, else a common
///   last link, is factored out; a subtracted member is removed from a
///   composition; two compositions lose the members they share; otherwise
///   both operands are stepped.
pub open spec fn step_term(t: Term) -> Term
    decreases weight(t), 1nat,
{
    match t {
        Term::Subdir(p) => if p.len() > 1 {
            chain(Term::Subdir(p.take(1)), Term::Subdir(p.skip(1)))
        } else {
            t
        },
        Term::Prefix(p) => if p.len() > 1 {
            chain(Term::Prefix(p.skip(1)), Term::Prefix(p.take(1)))
        } else {
            t
        },
        Term::Compose(fs) => if fs.len() == 0 {
            Term::Empty
        } else if fs.len() == 1 {
            fs[0]
        } else {
            let ms = kept_members(fs);
            match common_pre_term(ms) {
                Some((common, rest)) => chain(common, Term::Compose(rest)),
                None => match common_post_term(ms) {
                    Some((common, rest)) => chain(Term::Compose(rest), common),
                    None => {
                        let groups = group_term(ms);
                        if groups.len() != ms.len() {
                            Term::Compose(groups.map_values(|g: Seq<Term>| Term::Compose(g)))
                        } else {
                            Term::Compose(
                                step_members(fs).map_values(|m: Term| step_operand(m, t)),
                            )
                        }
                    },
                },
            }
        },
        Term::Chain(a, b) => match (*a, *b) {
            (Term::Chain(x, y), _) => chain(*x, chain(*y, *b)),
            (Term::Identity, _) => *b,
            (_, Term::Identity) => *a,
            _ => chain(step_operand(*a, t), step_operand(*b, t)),
        },
        Term::Subtract(a, b) => if *a == *b {
            Term::Empty
        } else if *a is Empty {
            Term::Empty
        } else if *b is Empty {
            *a
        } else if same_head(*a, *b) {
            chain(*a->Chain_0, subtract(*a->Chain_1, *b->Chain_1))
        } else {
            match common_post_term(seq![*a, *b]) {
                Some((common, rest)) => chain(subtract(rest[0], rest[1]), common),
                None => match (*a, *b) {
                    (Term::Compose(av), Term::Compose(bv)) => if av.contains(*b) {
                        step_operand(Term::Compose(without(av, *b)), t)
                    } else if bv.contains(*a) {
                        Term::Empty
                    } else {
                        subtract(
                            step_operand(Term::Compose(difference(av, bv)), t),
                            step_operand(Term::Compose(difference(bv, av)), t),
                        )
                    },
                    (Term::Compose(av), _) => if av.contains(*b) {
                        step_operand(Term::Compose(without(av, *b)), t)
                    } else {
                        subtract(step_operand(*a, t), step_operand(*b, t))
                    },
                    (_, Term::Compose(bv)) => if bv.contains(*a) {
                        Term::Empty
                    } else {
                        subtract(step_operand(*a, t), step_operand(*b, t))
                    },
                    _ => subtract(step_operand(*a, t), step_operand(*b, t)),
                },
            }
        },
        _ => t,
    }
}

/// `step_term` repeated until nothing changes, at most `n` times.
pub open spec fn iterate_steps(t: Term, n: nat) -> Term
    decreases n,
{
    if n == 0 {
        t
    } else {
        let s = step_term(t);
        if s == t {
            t
        } else {
            iterate_steps(s, (n - 1) as nat)
        }
    }
}

/// `step_term` repeated until nothing changes or `STEP_LIMIT` steps were
/// taken.
pub open spec fn iterate_term(t: Term) -> Term {
    iterate_steps(t, STEP_LIMIT as nat)
}

/// Rounds of simplifying and iterating, starting from `g`: a round ends the
/// run when simplifying the iterated form gives what simplifying `g` gave,
/// or when no round is left; the result is the last form, iterated.
pub open spec fn optimize_rounds(g: Term, n: nat) -> Term
    decreases n,
{
    let pretty = simplify_term(g);
    let next = simplify_term(iterate_term(g));
    if next == pretty || n == 0 {
        iterate_term(next)
    } else {
        optimize_rounds(next, (n - 1) as nat)
    }
}

/// The optimized form of a term.
pub open spec fn optimize_term(t: Term) -> Term {
    optimize_rounds(flatten_term(t), ROUND_LIMIT as nat)
}

} // verus!
