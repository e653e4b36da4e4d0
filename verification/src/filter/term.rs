//! The mathematical model of a filter: a finite term over the filter algebra.

use crate::path::{path_lt, prefix_related, PathModel};
use vstd::prelude::*;

verus! {

/// A filter expression as a tree. Executable code holds filters as interned
/// handles; every contract speaks of the term that a handle denotes.
pub enum Term {
    /// Passes its input through unchanged.
    Identity,
    /// Produces no content.
    Empty,
    /// Keeps only the subtree at the path, rooted at top level.
    Subdir(PathModel),
    /// Relocates all content under the path.
    Prefix(PathModel),
    /// Applies the first filter, then the second to its result.
    Chain(Box<Term>, Box<Term>),
    /// Applies every member to the same input and unions the results.
    Compose(Seq<Term>),
    /// The content of the first minus the content of the second.
    Subtract(Box<Term>, Box<Term>),
}

pub open spec fn chain(a: Term, b: Term) -> Term {
    Term::Chain(Box::new(a), Box::new(b))
}

pub open spec fn subtract(a: Term, b: Term) -> Term {
    Term::Subtract(Box::new(a), Box::new(b))
}

/// The path that a filter reads from: the subdirectories it descends into,
/// in order.
pub open spec fn src_path(t: Term) -> PathModel
    decreases t,
{
    match t {
        Term::Subdir(p) => p,
        Term::Chain(a, b) => src_path(*a) + src_path(*b),
        _ => Seq::empty(),
    }
}

/// The path that a filter writes to: the prefixes it adds, outermost first.
pub open spec fn dst_path(t: Term) -> PathModel
    decreases t,
{
    match t {
        Term::Prefix(p) => p,
        Term::Chain(a, b) => dst_path(*b) + dst_path(*a),
        _ => Seq::empty(),
    }
}

/// The strict part of the path-based order on members of a composition.
/// Members whose source paths, or whose destination paths, are related by
/// prefix are never ordered; the others are ordered by source path, then
/// destination path.
pub open spec fn sorts_before(x: Term, y: Term) -> bool {
    &&& !prefix_related(src_path(x), src_path(y))
    &&& !prefix_related(dst_path(x), dst_path(y))
    &&& (path_lt(src_path(x), src_path(y)) || (src_path(x) == src_path(y) && path_lt(
        dst_path(x),
        dst_path(y),
    )))
}

/// A measure that every structure-preserving rewrite lowers: a chain counts
/// its second operand twice, so that moving a nested chain from the right to
/// the left lowers it.
pub open spec fn weight(t: Term) -> nat
    decreases t,
{
    match t {
        Term::Chain(a, b) => weight(*a) + 2 * weight(*b) + 1,
        Term::Compose(fs) => 1 + weight_sum(fs),
        Term::Subtract(a, b) => 1 + weight(*a) + weight(*b),
        _ => 1,
    }
}

pub open spec fn weight_sum(ts: Seq<Term>) -> nat
    decreases ts,
{
    if ts.len() == 0 {
        0
    } else {
        weight_sum(ts.drop_last()) + weight(ts.last())
    }
}

/// A measure that distributing a chain over a composition lowers: a chain
/// multiplies, a composition adds.
pub open spec fn spread(t: Term) -> nat
    decreases t,
{
    match t {
        Term::Chain(a, b) => spread(*a) * spread(*b),
        Term::Compose(fs) => 2 + spread_sum(fs),
        Term::Subtract(a, b) => 2 + spread(*a) + spread(*b),
        _ => 2,
    }
}

pub open spec fn spread_sum(ts: Seq<Term>) -> nat
    decreases ts,
{
    if ts.len() == 0 {
        0
    } else {
        spread_sum(ts.drop_last()) + spread(ts.last())
    }
}

pub proof fn lemma_weight_sum_push(ts: Seq<Term>, x: Term)
    ensures
        weight_sum(ts.push(x)) == weight_sum(ts) + weight(x),
{
    assert(ts.push(x).drop_last() =~= ts);
}

pub proof fn lemma_weight_sum_concat(a: Seq<Term>, b: Seq<Term>)
    ensures
        weight_sum(a + b) == weight_sum(a) + weight_sum(b),
    decreases b.len(),
{
    if b.len() == 0 {
    } else {
        lemma_weight_sum_concat(a, b.drop_last());
        assert((a + b).drop_last() =~= a + b.drop_last());
    }
}

pub proof fn lemma_weight_sum_member(ts: Seq<Term>, i: int)
    requires
        0 <= i < ts.len(),
    ensures
        weight(ts[i]) <= weight_sum(ts),
    decreases ts.len(),
{
    if i < ts.len() - 1 {
        lemma_weight_sum_member(ts.drop_last(), i);
    }
}

pub proof fn lemma_spread_at_least_two(t: Term)
    ensures
        spread(t) >= 2,
    decreases t,
{
    match t {
        Term::Chain(a, b) => {
            lemma_spread_at_least_two(*a);
            lemma_spread_at_least_two(*b);
            let x = spread(*a);
            let y = spread(*b);
            assert(x * y >= 2) by (nonlinear_arith)
                requires
                    x >= 2,
                    y >= 2,
            ;
        },
        _ => {},
    }
}

pub proof fn lemma_spread_sum_push(ts: Seq<Term>, x: Term)
    ensures
        spread_sum(ts.push(x)) == spread_sum(ts) + spread(x),
{
    assert(ts.push(x).drop_last() =~= ts);
}

pub proof fn lemma_spread_sum_concat(a: Seq<Term>, b: Seq<Term>)
    ensures
        spread_sum(a + b) == spread_sum(a) + spread_sum(b),
    decreases b.len(),
{
    if b.len() == 0 {
    } else {
        lemma_spread_sum_concat(a, b.drop_last());
        assert((a + b).drop_last() =~= a + b.drop_last());
    }
}

pub proof fn lemma_spread_sum_member(ts: Seq<Term>, i: int)
    requires
        0 <= i < ts.len(),
    ensures
        spread(ts[i]) <= spread_sum(ts),
    decreases ts.len(),
{
    if i < ts.len() - 1 {
        lemma_spread_sum_member(ts.drop_last(), i);
    }
}

} // verus!
