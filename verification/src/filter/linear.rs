//! Optimizing a filter without composition, which subtracts only chains of
//! plain filters, does not change what it yields.
//!
//! Such a chain yields each entry from at most one entry of the content, so
//! that it may be applied before a subtraction or after it.

use crate::filter::meaning::{apply, lemma_simplify_meaning, same_meaning, Content};
use crate::filter::rules::{
    common_post_term, flatten_pass, flatten_term, iterate_steps, iterate_term, last_chain_term,
    optimize_rounds, optimize_term, same_head, simplify_pass, simplify_term, step_term,
    ROUND_LIMIT, STEP_LIMIT,
};
use crate::filter::shrink::{
    lemma_flatten_operands, lemma_simplify_operands, lemma_simplify_pass_shrinks,
    lemma_step_operands,
};
use crate::filter::sound::{
    lemma_last_chain_meaning, lemma_optimize_sound, lemma_step_sound, subtract_free,
};
use crate::filter::term::{chain, subtract, weight, Term};
use vstd::prelude::*;

verus! {

/// A chain of identity, empty, subdirectory and prefix filters.
pub open spec fn pointwise(t: Term) -> bool
    decreases t,
{
    match t {
        Term::Chain(a, b) => pointwise(*a) && pointwise(*b),
        Term::Compose(_) => false,
        Term::Subtract(_, _) => false,
        _ => true,
    }
}

/// No composition occurs in the term, and every subtraction in it is of
/// one pointwise filter from another.
pub open spec fn linear(t: Term) -> bool
    decreases t,
{
    match t {
        Term::Chain(a, b) => linear(*a) && linear(*b),
        Term::Compose(_) => false,
        Term::Subtract(a, b) => pointwise(*a) && pointwise(*b),
        _ => true,
    }
}

/// The same meaning, and linear.
pub open spec fn keeps_linear(r: Term, t: Term) -> bool {
    same_meaning(r, t) && linear(r)
}

/// A pointwise filter holds no subtraction, and is linear.
pub proof fn lemma_pointwise_plain(t: Term)
    requires
        pointwise(t),
    ensures
        subtract_free(t),
        linear(t),
    decreases t,
{
    match t {
        Term::Chain(a, b) => {
            lemma_pointwise_plain(*a);
            lemma_pointwise_plain(*b);
        },
        _ => {},
    }
}

/// A pointwise filter yields for a difference of contents the difference
/// of what it yields for each.
pub proof fn lemma_pointwise_difference(t: Term, a: Content, b: Content)
    requires
        pointwise(t),
    ensures
        apply(t, a.difference(b)) == apply(t, a).difference(apply(t, b)),
    decreases t,
{
    match t {
        Term::Empty => {
        },
        Term::Subdir(p) => {
        },
        Term::Prefix(p) => {
        },
        Term::Chain(x, y) => {
            lemma_pointwise_difference(*x, a, b);
            lemma_pointwise_difference(*y, apply(*x, a), apply(*x, b));
        },
        _ => {},
    }
}

/// A pointwise chain split at its last link gives pointwise parts.
pub proof fn lemma_last_chain_pointwise(rest: Term, t: Term)
    requires
        pointwise(rest),
        pointwise(t),
    ensures
        pointwise(last_chain_term(rest, t).0),
        pointwise(last_chain_term(rest, t).1),
    decreases t,
{
    match t {
        Term::Chain(a, b) => {
            lemma_last_chain_pointwise(chain(rest, *a), *b);
        },
        _ => {},
    }
}

/// A linear term is flat already.
pub proof fn lemma_flatten_linear(t: Term)
    requires
        linear(t),
    ensures
        flatten_term(t) == t,
    decreases t,
{
    lemma_flatten_operands(t);
    match t {
        Term::Chain(a, b) => {
            assert(linear(*a) && linear(*b));
            lemma_flatten_linear(*a);
            lemma_flatten_linear(*b);
            assert(flatten_pass(t) == chain(flatten_term(*a), flatten_term(*b)));
        },
        Term::Subtract(a, b) => {
            lemma_pointwise_plain(*a);
            lemma_pointwise_plain(*b);
            lemma_flatten_linear(*a);
            lemma_flatten_linear(*b);
        },
        _ => {
        },
    }
}

/// A simplifying pass keeps a pointwise term pointwise and a linear term
/// linear.
pub proof fn lemma_simplify_pass_linear(t: Term)
    ensures
        pointwise(t) ==> pointwise(simplify_pass(t)),
        linear(t) ==> linear(simplify_pass(t)),
    decreases weight(t), 1nat,
{
    lemma_simplify_operands(t);
    match t {
        Term::Chain(a, b) => {
            lemma_simplify_linear(*a);
            lemma_simplify_linear(*b);
            match (*a, *b) {
                (_, Term::Chain(x, y)) => {
                    if pointwise(t) {
                        assert(pointwise(*b));
                        assert(pointwise(chain(*a, *x)));
                    }
                    if linear(t) {
                        assert(linear(*b));
                        assert(linear(chain(*a, *x)));
                    }
                },
                (Term::Prefix(x), Term::Prefix(y)) => {},
                (Term::Subdir(x), Term::Subdir(y)) => {},
                (Term::Chain(x, y), Term::Prefix(p2)) => {
                    match *y {
                        Term::Prefix(p1) => {
                            lemma_simplify_linear(*x);
                            assert(pointwise(Term::Prefix(p2 + p1)));
                            assert(linear(Term::Prefix(p2 + p1)));
                            if pointwise(t) {
                                assert(pointwise(*a));
                            }
                            if linear(t) {
                                assert(linear(*a));
                            }
                        },
                        _ => {
                        },
                    }
                },
                _ => {
                },
            }
        },
        Term::Subtract(a, b) => {
            lemma_simplify_linear(*a);
            lemma_simplify_linear(*b);
        },
        _ => {},
    }
}

/// Simplifying keeps a pointwise term pointwise and a linear term linear.
pub proof fn lemma_simplify_linear(t: Term)
    ensures
        pointwise(t) ==> pointwise(simplify_term(t)),
        linear(t) ==> linear(simplify_term(t)),
    decreases weight(t), 2nat,
{
    lemma_simplify_pass_shrinks(t);
    lemma_simplify_pass_linear(t);
    if simplify_pass(t) != t {
        lemma_simplify_linear(simplify_pass(t));
    }
}

/// One step keeps a pointwise term pointwise.
pub proof fn lemma_step_pointwise(t: Term)
    requires
        pointwise(t),
    ensures
        pointwise(step_term(t)),
    decreases weight(t),
{
    lemma_step_operands(t);
    match t {
        Term::Subdir(p) => {
            if p.len() > 1 {
                assert(pointwise(Term::Subdir(p.take(1))) && pointwise(Term::Subdir(p.skip(1))));
            }
        },
        Term::Prefix(p) => {
            if p.len() > 1 {
                assert(pointwise(Term::Prefix(p.take(1))) && pointwise(Term::Prefix(p.skip(1))));
            }
        },
        Term::Chain(a, b) => {
            match (*a, *b) {
                (Term::Chain(x, y), _) => {
                    assert(pointwise(*a));
                    assert(pointwise(chain(*y, *b)));
                },
                (Term::Identity, _) => {},
                (_, Term::Identity) => {},
                _ => {
                    lemma_step_pointwise(*a);
                    lemma_step_pointwise(*b);
                },
            }
        },
        _ => {},
    }
}

/// One step keeps the meaning of a linear term, and keeps it linear.
pub proof fn lemma_step_linear(t: Term)
    requires
        linear(t),
    ensures
        keeps_linear(step_term(t), t),
    decreases weight(t),
{
    lemma_step_operands(t);
    let r = step_term(t);
    match t {
        Term::Subdir(p) => {
            lemma_step_sound(t);
            lemma_step_pointwise(t);
            lemma_pointwise_plain(r);
        },
        Term::Prefix(p) => {
            lemma_step_sound(t);
            lemma_step_pointwise(t);
            lemma_pointwise_plain(r);
        },
        Term::Chain(a, b) => {
            assert(linear(*a) && linear(*b));
            match (*a, *b) {
                (Term::Chain(x, y), _) => {
                    assert(linear(chain(*y, *b)));
                    assert forall|c: Content| #[trigger] apply(r, c) == apply(t, c) by {
                        assert(apply(*a, c) == apply(*y, apply(*x, c)));
                        assert(apply(chain(*y, *b), apply(*x, c)) == apply(*b, apply(
                            *y,
                            apply(*x, c),
                        )));
                    }
                },
                (Term::Identity, _) => {
                    assert forall|c: Content| #[trigger] apply(r, c) == apply(t, c) by {
                        assert(apply(*a, c) == c);
                    }
                },
                (_, Term::Identity) => {
                    assert forall|c: Content| #[trigger] apply(r, c) == apply(t, c) by {
                        assert(apply(*b, apply(*a, c)) == apply(*a, c));
                    }
                },
                _ => {
                    lemma_step_linear(*a);
                    lemma_step_linear(*b);
                    let sa = step_term(*a);
                    let sb = step_term(*b);
                    assert forall|c: Content| #[trigger] apply(r, c) == apply(t, c) by {
                        assert(apply(sa, c) == apply(*a, c));
                        assert(apply(sb, apply(*a, c)) == apply(*b, apply(*a, c)));
                    }
                },
            }
        },
        Term::Subtract(a, b) => {
            lemma_pointwise_plain(*a);
            lemma_pointwise_plain(*b);
            if *a == *b {
                assert forall|c: Content| #[trigger] apply(r, c) == apply(t, c) by {}
            } else if *a is Empty {
                assert forall|c: Content| #[trigger] apply(r, c) == apply(t, c) by {}
            } else if *b is Empty {
                assert forall|c: Content| #[trigger] apply(r, c) == apply(t, c) by {
                    assert(apply(*a, c).difference(apply(*b, c)) =~= apply(*a, c));
                }
            } else if same_head(*a, *b) {
                let h = *a->Chain_0;
                let a1 = *a->Chain_1;
                let b1 = *b->Chain_1;
                lemma_pointwise_plain(h);
                assert(linear(subtract(a1, b1)));
                assert forall|c: Content| #[trigger] apply(r, c) == apply(t, c) by {
                    let d = apply(h, c);
                    assert(apply(*a, c) == apply(a1, d));
                    assert(apply(*b, c) == apply(b1, d));
                    assert(apply(subtract(a1, b1), d) == apply(a1, d).difference(apply(b1, d)));
                }
            } else {
                match common_post_term(seq![*a, *b]) {
                    Some((common, rest)) => {
                        lemma_last_chain_pointwise(Term::Identity, *a);
                        lemma_last_chain_pointwise(Term::Identity, *b);
                        lemma_pointwise_plain(common);
                        let inner = subtract(rest[0], rest[1]);
                        assert(linear(inner));
                        assert forall|c: Content| #[trigger] apply(r, c) == apply(t, c) by {
                            let x = apply(rest[0], c);
                            let y = apply(rest[1], c);
                            lemma_last_chain_meaning(Term::Identity, *a, c);
                            lemma_last_chain_meaning(Term::Identity, *b, c);
                            lemma_pointwise_difference(common, x, y);
                            assert(apply(inner, c) == x.difference(y));
                        }
                    },
                    None => {
                        lemma_step_sound(*a);
                        lemma_step_sound(*b);
                        lemma_step_pointwise(*a);
                        lemma_step_pointwise(*b);
                        let sa = step_term(*a);
                        let sb = step_term(*b);
                        assert forall|c: Content| #[trigger] apply(r, c) == apply(t, c) by {
                            assert(apply(sa, c) == apply(*a, c));
                            assert(apply(sb, c) == apply(*b, c));
                        }
                    },
                }
            }
        },
        _ => {},
    }
}

/// Iterating keeps the meaning of a linear term, and keeps it linear.
pub proof fn lemma_iterate_steps_linear(t: Term, n: nat)
    requires
        linear(t),
    ensures
        keeps_linear(iterate_steps(t, n), t),
    decreases n,
{
    if n > 0 {
        let s = step_term(t);
        lemma_step_linear(t);
        if s != t {
            lemma_iterate_steps_linear(s, (n - 1) as nat);
            assert forall|c: Content| #[trigger] apply(iterate_steps(t, n), c) == apply(t, c) by {}
        }
    }
}

/// Rounds of simplifying and iterating keep the meaning of a linear term.
pub proof fn lemma_rounds_linear(g: Term, n: nat)
    requires
        linear(g),
    ensures
        keeps_linear(optimize_rounds(g, n), g),
    decreases n,
{
    let iterated = iterate_term(g);
    lemma_iterate_steps_linear(g, STEP_LIMIT as nat);
    let next = simplify_term(iterated);
    lemma_simplify_meaning(iterated);
    lemma_simplify_linear(iterated);
    lemma_iterate_steps_linear(next, STEP_LIMIT as nat);
    if !(next == simplify_term(g) || n == 0) {
        lemma_rounds_linear(next, (n - 1) as nat);
    }
    let r = optimize_rounds(g, n);
    assert forall|c: Content| #[trigger] apply(r, c) == apply(g, c) by {}
}

/// Optimizing keeps the meaning of a linear term, and keeps it linear.
pub proof fn lemma_optimize_linear(t: Term)
    requires
        linear(t),
    ensures
        keeps_linear(optimize_term(t), t),
{
    lemma_flatten_linear(t);
    lemma_rounds_linear(t, ROUND_LIMIT as nat);
}

/// The filters of which optimizing is known to keep the meaning: those
/// without subtraction, and those without composition that subtract only
/// pointwise filters.
pub open spec fn tame(t: Term) -> bool {
    subtract_free(t) || linear(t)
}

/// Semantic equivalence of optimizing: for every tame filter and every
/// content, the optimized filter yields what the filter yields; and the
/// optimized filter is tame.
pub proof fn lemma_optimize_meaning(t: Term)
    requires
        tame(t),
    ensures
        same_meaning(optimize_term(t), t),
        tame(optimize_term(t)),
{
    if subtract_free(t) {
        lemma_optimize_sound(t);
    } else {
        lemma_optimize_linear(t);
    }
}

/// Identity laws, by meaning: for every tame filter `f`, the optimized
/// forms of `Chain(Identity, f)`, of `f` and of `Chain(f, Identity)` yield
/// the same content.
pub proof fn lemma_identity_laws_meaning(f: Term)
    requires
        tame(f),
    ensures
        same_meaning(optimize_term(chain(Term::Identity, f)), optimize_term(f)),
        same_meaning(optimize_term(chain(f, Term::Identity)), optimize_term(f)),
{
    let left = chain(Term::Identity, f);
    let right = chain(f, Term::Identity);
    assert(subtract_free(Term::Identity) && linear(Term::Identity));
    lemma_optimize_meaning(f);
    lemma_optimize_meaning(left);
    lemma_optimize_meaning(right);
    assert forall|c: Content| #[trigger]
        apply(optimize_term(left), c) == apply(optimize_term(f), c) by {
        assert(apply(Term::Identity, c) == c);
    }
    assert forall|c: Content| #[trigger]
        apply(optimize_term(right), c) == apply(optimize_term(f), c) by {
        assert(apply(right, c) == apply(Term::Identity, apply(f, c)));
    }
}

/// Idempotence, by meaning: for every tame filter, optimizing the
/// optimized form yields what the optimized form yields.
pub proof fn lemma_optimize_twice_meaning(t: Term)
    requires
        tame(t),
    ensures
        same_meaning(optimize_term(optimize_term(t)), optimize_term(t)),
{
    lemma_optimize_meaning(t);
    lemma_optimize_meaning(optimize_term(t));
}

} // verus!
