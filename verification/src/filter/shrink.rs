//! Why the rewriting terminates: every pass that changes a term lowers a
//! measure of it, and every operand that a pass recurses into is smaller
//! than the term itself.

use crate::filter::rules::{
    dedup, difference, flatten_pass, flatten_term, insert_sorted, kept_members, prefix_sort_term,
    simplify_pass, simplify_term, splice, step_members, without,
};
use crate::filter::term::{
    chain, lemma_spread_at_least_two, lemma_spread_sum_concat, lemma_spread_sum_member,
    lemma_spread_sum_push, lemma_weight_sum_concat, lemma_weight_sum_member,
    lemma_weight_sum_push, spread, spread_sum, weight, weight_sum, Term,
};
use vstd::prelude::*;

verus! {

/// Splicing never raises the sum of spreads, and lowers it unless it
/// leaves the list as it is.
pub proof fn lemma_splice_spread(ts: Seq<Term>)
    ensures
        spread_sum(splice(ts)) <= spread_sum(ts),
        splice(ts) == ts || spread_sum(splice(ts)) < spread_sum(ts),
    decreases ts.len(),
{
    if ts.len() > 0 {
        let init = ts.drop_last();
        lemma_splice_spread(init);
        match ts.last() {
            Term::Compose(v) => {
                lemma_spread_sum_concat(splice(init), v);
                assert(spread(ts.last()) == 2 + spread_sum(v));
            },
            f => {
                lemma_spread_sum_push(splice(init), f);
            },
        }
    }
}

/// Splicing never raises the sum of weights, and lowers it unless it
/// leaves the list as it is.
pub proof fn lemma_splice_weight(ts: Seq<Term>)
    ensures
        weight_sum(splice(ts)) <= weight_sum(ts),
        splice(ts) == ts || weight_sum(splice(ts)) < weight_sum(ts),
    decreases ts.len(),
{
    if ts.len() > 0 {
        let init = ts.drop_last();
        lemma_splice_weight(init);
        match ts.last() {
            Term::Compose(v) => {
                lemma_weight_sum_concat(splice(init), v);
                assert(weight(ts.last()) == 1 + weight_sum(v));
            },
            f => {
                lemma_weight_sum_push(splice(init), f);
            },
        }
    }
}

/// A list whose members are each unchanged or of lower spread is unchanged
/// or of lower sum.
pub proof fn lemma_spread_sum_pointwise(rs: Seq<Term>, ss: Seq<Term>)
    requires
        rs.len() == ss.len(),
        forall|i: int| 0 <= i < rs.len() ==> rs[i] == ss[i] || spread(rs[i]) < spread(ss[i]),
    ensures
        rs == ss || spread_sum(rs) < spread_sum(ss),
    decreases rs.len(),
{
    if rs.len() > 0 {
        lemma_spread_sum_pointwise(rs.drop_last(), ss.drop_last());
        if rs.drop_last() == ss.drop_last() && rs.last() == ss.last() {
            assert(rs =~= rs.drop_last().push(rs.last()));
        }
    }
}

/// A list whose members are each unchanged or of lower weight is unchanged
/// or of lower sum.
pub proof fn lemma_weight_sum_pointwise(rs: Seq<Term>, ss: Seq<Term>)
    requires
        rs.len() == ss.len(),
        forall|i: int| 0 <= i < rs.len() ==> rs[i] == ss[i] || weight(rs[i]) < weight(ss[i]),
    ensures
        rs == ss || weight_sum(rs) < weight_sum(ss),
    decreases rs.len(),
{
    if rs.len() > 0 {
        lemma_weight_sum_pointwise(rs.drop_last(), ss.drop_last());
        if rs.drop_last() == ss.drop_last() && rs.last() == ss.last() {
            assert(rs =~= rs.drop_last().push(rs.last()));
        }
    }
}

/// The spread of a list of chains with one common left operand.
pub proof fn lemma_spread_sum_chained_left(a: Term, bs: Seq<Term>)
    ensures
        spread_sum(bs.map_values(|f: Term| chain(a, f))) == spread(a) * spread_sum(bs),
    decreases bs.len(),
{
    let cs = bs.map_values(|f: Term| chain(a, f));
    if bs.len() > 0 {
        lemma_spread_sum_chained_left(a, bs.drop_last());
        assert(cs.drop_last() =~= bs.drop_last().map_values(|f: Term| chain(a, f)));
        let x = spread(a);
        let y = spread_sum(bs.drop_last());
        let z = spread(bs.last());
        assert(x * y + x * z == x * (y + z)) by (nonlinear_arith);
        assert(spread(cs.last()) == x * z);
    } else {
        let x = spread(a);
        assert(x * 0 == 0) by (nonlinear_arith);
    }
}

/// The spread of a list of chains with one common right operand.
pub proof fn lemma_spread_sum_chained_right(xs: Seq<Term>, b: Term)
    ensures
        spread_sum(xs.map_values(|f: Term| chain(f, b))) == spread_sum(xs) * spread(b),
    decreases xs.len(),
{
    let cs = xs.map_values(|f: Term| chain(f, b));
    if xs.len() > 0 {
        lemma_spread_sum_chained_right(xs.drop_last(), b);
        assert(cs.drop_last() =~= xs.drop_last().map_values(|f: Term| chain(f, b)));
        let x = spread(b);
        let y = spread_sum(xs.drop_last());
        let z = spread(xs.last());
        assert(y * x + z * x == (y + z) * x) by (nonlinear_arith);
        assert(spread(cs.last()) == z * x);
    } else {
        let x = spread(b);
        assert(0 * x == 0) by (nonlinear_arith);
    }
}

/// Every operand that `flatten_pass` recurses into has a smaller spread
/// than the term itself.
pub proof fn lemma_flatten_operands(t: Term)
    ensures
        match t {
            Term::Compose(fs) => forall|i: int|
                0 <= i < splice(fs).len() ==> spread(#[trigger] splice(fs)[i]) < spread(t),
            Term::Chain(a, b) => spread(*a) < spread(t) && spread(*b) < spread(t),
            Term::Subtract(a, b) => spread(*a) < spread(t) && spread(*b) < spread(t),
            _ => true,
        },
{
    match t {
        Term::Compose(fs) => {
            lemma_splice_spread(fs);
            assert forall|i: int| 0 <= i < splice(fs).len() implies spread(
                #[trigger] splice(fs)[i],
            ) < spread(t) by {
                lemma_spread_sum_member(splice(fs), i);
            }
        },
        Term::Chain(a, b) => {
            lemma_spread_at_least_two(*a);
            lemma_spread_at_least_two(*b);
            let x = spread(*a);
            let y = spread(*b);
            assert(x < x * y && y < x * y) by (nonlinear_arith)
                requires
                    x >= 2,
                    y >= 2,
            ;
        },
        _ => {},
    }
}

/// A flattening pass that changes a term lowers its spread.
pub proof fn lemma_flatten_pass_shrinks(t: Term)
    ensures
        flatten_pass(t) == t || spread(flatten_pass(t)) < spread(t),
    decreases spread(t), 1nat,
{
    lemma_flatten_operands(t);
    match t {
        Term::Compose(fs) => {
            let ss = splice(fs);
            let rs = flatten_pass(t)->Compose_0;
            assert forall|i: int| 0 <= i < rs.len() implies rs[i] == ss[i] || spread(rs[i])
                < spread(ss[i]) by {
                lemma_flatten_shrinks(ss[i]);
            }
            lemma_spread_sum_pointwise(rs, ss);
            lemma_splice_spread(fs);
        },
        Term::Chain(a, b) => {
            lemma_spread_at_least_two(*a);
            lemma_spread_at_least_two(*b);
            match (*a, *b) {
                (_, Term::Compose(bs)) => {
                    lemma_spread_sum_chained_left(*a, bs);
                    let x = spread(*a);
                    let y = spread_sum(bs);
                    assert(2 + x * y < x * (2 + y)) by (nonlinear_arith)
                        requires
                            x >= 2,
                    ;
                },
                (Term::Compose(xs), _) => {
                    lemma_spread_sum_chained_right(xs, *b);
                    let x = spread(*b);
                    let y = spread_sum(xs);
                    assert(2 + y * x < (2 + y) * x) by (nonlinear_arith)
                        requires
                            x >= 2,
                    ;
                },
                _ => {
                    lemma_flatten_shrinks(*a);
                    lemma_flatten_shrinks(*b);
                    let fa = flatten_term(*a);
                    let fb = flatten_term(*b);
                    lemma_spread_at_least_two(fa);
                    lemma_spread_at_least_two(fb);
                    let x = spread(*a);
                    let y = spread(*b);
                    let u = spread(fa);
                    let v = spread(fb);
                    if fa != *a || fb != *b {
                        assert(u * v < x * y) by (nonlinear_arith)
                            requires
                                u >= 2,
                                v >= 2,
                                u <= x,
                                v <= y,
                                u < x || v < y,
                        ;
                    }
                },
            }
        },
        Term::Subtract(a, b) => {
            lemma_flatten_shrinks(*a);
            lemma_flatten_shrinks(*b);
        },
        _ => {},
    }
}

/// Flattening a term leaves it as it is or lowers its spread.
pub proof fn lemma_flatten_shrinks(t: Term)
    ensures
        flatten_term(t) == t || spread(flatten_term(t)) < spread(t),
    decreases spread(t), 2nat,
{
    lemma_flatten_pass_shrinks(t);
    let r = flatten_pass(t);
    if r != t {
        lemma_flatten_shrinks(r);
    }
}

/// The flat form is one pass applied again and again until it changes
/// nothing.
pub proof fn lemma_flatten_unfold(t: Term)
    ensures
        flatten_term(t) == if flatten_pass(t) == t {
            t
        } else {
            flatten_term(flatten_pass(t))
        },
{
    lemma_flatten_pass_shrinks(t);
}

/// Every operand that `simplify_pass` recurses into has a smaller weight
/// than the term itself.
pub proof fn lemma_simplify_operands(t: Term)
    ensures
        match t {
            Term::Compose(fs) => forall|i: int|
                0 <= i < splice(fs).len() ==> weight(#[trigger] splice(fs)[i]) < weight(t),
            Term::Chain(a, b) => {
                &&& weight(*a) < weight(t)
                &&& weight(*b) < weight(t)
                &&& (*a matches Term::Chain(x, _) ==> weight(*x) < weight(t))
            },
            Term::Subtract(a, b) => weight(*a) < weight(t) && weight(*b) < weight(t),
            _ => true,
        },
{
    match t {
        Term::Compose(fs) => {
            lemma_splice_weight(fs);
            assert forall|i: int| 0 <= i < splice(fs).len() implies weight(
                #[trigger] splice(fs)[i],
            ) < weight(t) by {
                lemma_weight_sum_member(splice(fs), i);
            }
        },
        _ => {},
    }
}

/// A simplifying pass that changes a term lowers its weight.
pub proof fn lemma_simplify_pass_shrinks(t: Term)
    ensures
        simplify_pass(t) == t || weight(simplify_pass(t)) < weight(t),
    decreases weight(t), 1nat,
{
    lemma_simplify_operands(t);
    match t {
        Term::Compose(fs) => {
            let ss = splice(fs);
            let rs = simplify_pass(t)->Compose_0;
            assert forall|i: int| 0 <= i < rs.len() implies rs[i] == ss[i] || weight(rs[i])
                < weight(ss[i]) by {
                lemma_simplify_shrinks(ss[i]);
            }
            lemma_weight_sum_pointwise(rs, ss);
            lemma_splice_weight(fs);
        },
        Term::Chain(a, b) => {
            lemma_simplify_shrinks(*a);
            lemma_simplify_shrinks(*b);
            match (*a, *b) {
                (_, Term::Chain(x, y)) => {
                    assert(weight(simplify_pass(t)) == weight(chain(*a, *x)) + 2 * weight(*y)
                        + 1);
                },
                (Term::Prefix(x), Term::Prefix(y)) => {
                },
                (Term::Subdir(x), Term::Subdir(y)) => {
                },
                (Term::Chain(x, y), Term::Prefix(p2)) => {
                    match *y {
                        Term::Prefix(p1) => {
                            lemma_simplify_shrinks(*x);
                            assert(weight(Term::Prefix(p2 + p1)) == 1);
                        },
                        _ => {
                            let r = chain(simplify_term(*a), simplify_term(*b));
                            assert(weight(r) == weight(simplify_term(*a)) + 2 * weight(
                                simplify_term(*b),
                            ) + 1);
                        },
                    }
                },
                _ => {
                    let r = chain(simplify_term(*a), simplify_term(*b));
                    assert(weight(r) == weight(simplify_term(*a)) + 2 * weight(simplify_term(*b))
                        + 1);
                },
            }
        },
        Term::Subtract(a, b) => {
            lemma_simplify_shrinks(*a);
            lemma_simplify_shrinks(*b);
        },
        _ => {},
    }
}

/// Simplifying a term leaves it as it is or lowers its weight.
pub proof fn lemma_simplify_shrinks(t: Term)
    ensures
        simplify_term(t) == t || weight(simplify_term(t)) < weight(t),
    decreases weight(t), 2nat,
{
    lemma_simplify_pass_shrinks(t);
    let r = simplify_pass(t);
    if r != t {
        lemma_simplify_shrinks(r);
    }
}

/// Removing the members equal to `x` does not raise the sum of weights.
pub proof fn lemma_without_weight(ts: Seq<Term>, x: Term)
    ensures
        weight_sum(without(ts, x)) <= weight_sum(ts),
    decreases ts.len(),
{
    if ts.len() > 0 {
        lemma_without_weight(ts.drop_last(), x);
        lemma_weight_sum_push(without(ts.drop_last(), x), ts.last());
    }
}

/// Removing the members that occur in `other` does not raise the sum of
/// weights.
pub proof fn lemma_difference_weight(ts: Seq<Term>, other: Seq<Term>)
    ensures
        weight_sum(difference(ts, other)) <= weight_sum(ts),
    decreases ts.len(),
{
    if ts.len() > 0 {
        lemma_difference_weight(ts.drop_last(), other);
        lemma_weight_sum_push(difference(ts.drop_last(), other), ts.last());
    }
}

/// Removing repeated members does not raise the sum of weights.
pub proof fn lemma_dedup_weight(ts: Seq<Term>)
    ensures
        weight_sum(dedup(ts)) <= weight_sum(ts),
    decreases ts.len(),
{
    if ts.len() > 0 {
        lemma_dedup_weight(ts.drop_last());
        lemma_weight_sum_push(dedup(ts.drop_last()), ts.last());
    }
}

/// Inserting a member adds its weight to the sum.
pub proof fn lemma_insert_sorted_weight(sorted: Seq<Term>, x: Term)
    ensures
        insert_sorted(sorted, x).len() == sorted.len() + 1,
        weight_sum(insert_sorted(sorted, x)) == weight_sum(sorted) + weight(x),
    decreases sorted.len(),
{
    if sorted.len() > 0 && crate::filter::term::sorts_before(x, sorted.last()) {
        lemma_insert_sorted_weight(sorted.drop_last(), x);
        lemma_weight_sum_push(insert_sorted(sorted.drop_last(), x), sorted.last());
    } else {
        lemma_weight_sum_push(sorted, x);
    }
}

/// Sorting keeps the number of members and the sum of their weights.
pub proof fn lemma_prefix_sort_weight(ms: Seq<Term>)
    ensures
        prefix_sort_term(ms).len() == ms.len(),
        weight_sum(prefix_sort_term(ms)) == weight_sum(ms),
    decreases ms.len(),
{
    if ms.len() > 0 {
        lemma_prefix_sort_weight(ms.drop_last());
        lemma_insert_sorted_weight(prefix_sort_term(ms.drop_last()), ms.last());
    }
}

/// Every term that `step_term` recurses into has a smaller weight than the
/// term itself.
pub proof fn lemma_step_operands(t: Term)
    ensures
        match t {
            Term::Compose(fs) => forall|i: int|
                0 <= i < step_members(fs).len() ==> weight(#[trigger] step_members(fs)[i])
                    < weight(t),
            Term::Chain(a, b) => weight(*a) < weight(t) && weight(*b) < weight(t),
            Term::Subtract(a, b) => {
                &&& weight(*a) < weight(t)
                &&& weight(*b) < weight(t)
                &&& (*a matches Term::Compose(av) ==> {
                    &&& weight(Term::Compose(without(av, *b))) < weight(t)
                    &&& (*b matches Term::Compose(bv) ==> weight(
                        Term::Compose(difference(av, bv)),
                    ) < weight(t) && weight(Term::Compose(difference(bv, av))) < weight(t))
                })
            },
            _ => true,
        },
{
    match t {
        Term::Compose(fs) => {
            lemma_dedup_weight(fs);
            lemma_without_weight(dedup(fs), Term::Empty);
            lemma_prefix_sort_weight(kept_members(fs));
            assert forall|i: int| 0 <= i < step_members(fs).len() implies weight(
                #[trigger] step_members(fs)[i],
            ) < weight(t) by {
                lemma_weight_sum_member(step_members(fs), i);
            }
        },
        Term::Subtract(a, b) => {
            match *a {
                Term::Compose(av) => {
                    lemma_without_weight(av, *b);
                    assert(weight(Term::Compose(without(av, *b))) == 1 + weight_sum(
                        without(av, *b),
                    ));
                    match *b {
                        Term::Compose(bv) => {
                            lemma_difference_weight(av, bv);
                            lemma_difference_weight(bv, av);
                            assert(weight(Term::Compose(difference(av, bv))) == 1 + weight_sum(
                                difference(av, bv),
                            ));
                            assert(weight(Term::Compose(difference(bv, av))) == 1 + weight_sum(
                                difference(bv, av),
                            ));
                        },
                        _ => {},
                    }
                },
                _ => {},
            }
        },
        _ => {},
    }
}

} // verus!
