//! Flattening keeps what a filter yields, unless it has to distribute a
//! composition over a subtraction that follows it in a chain.

use crate::filter::laws::{lemma_flatten_idempotent, lemma_flatten_keeps_compose};
use crate::filter::meaning::{
    apply, apply_all, lemma_apply_all_aligned, lemma_splice_meaning, same_meaning, Content,
};
use crate::filter::rules::{flatten_pass, flatten_term, splice};
use crate::filter::shrink::{lemma_flatten_operands, lemma_flatten_pass_shrinks};
use crate::filter::sound::{
    lemma_chained_left, lemma_chained_right, lemma_flatten_sound, subtract_free,
};
use crate::filter::term::{chain, spread, Term};
use vstd::prelude::*;

verus! {

/// Wherever the first operand of a chain flattens to a composition, the
/// second operand holds no subtraction.
pub open spec fn flatten_safe(t: Term) -> bool
    decreases t,
{
    match t {
        Term::Chain(a, b) => {
            &&& flatten_safe(*a)
            &&& flatten_safe(*b)
            &&& (flatten_term(*a) is Compose ==> subtract_free(*b))
        },
        Term::Compose(fs) => forall|i: int| 0 <= i < fs.len() ==> flatten_safe(#[trigger] fs[i]),
        Term::Subtract(a, b) => flatten_safe(*a) && flatten_safe(*b),
        _ => true,
    }
}

/// Every member is safe to flatten.
pub open spec fn all_flatten_safe(ts: Seq<Term>) -> bool {
    forall|i: int| 0 <= i < ts.len() ==> flatten_safe(#[trigger] ts[i])
}

/// The same meaning, and safe to flatten.
pub open spec fn keeps_safe(r: Term, t: Term) -> bool {
    same_meaning(r, t) && flatten_safe(r)
}

/// Splicing keeps a list safe to flatten.
pub proof fn lemma_splice_safe(ts: Seq<Term>)
    requires
        all_flatten_safe(ts),
    ensures
        all_flatten_safe(splice(ts)),
    decreases ts.len(),
{
    if ts.len() > 0 {
        let init = splice(ts.drop_last());
        assert(all_flatten_safe(ts.drop_last())) by {
            assert forall|i: int| 0 <= i < ts.drop_last().len() implies flatten_safe(
                #[trigger] ts.drop_last()[i],
            ) by {}
        }
        lemma_splice_safe(ts.drop_last());
        match ts.last() {
            Term::Compose(v) => {
                assert forall|i: int| 0 <= i < (init + v).len() implies flatten_safe(
                    #[trigger] (init + v)[i],
                ) by {}
            },
            f => {
                assert forall|i: int| 0 <= i < init.push(f).len() implies flatten_safe(
                    #[trigger] init.push(f)[i],
                ) by {}
            },
        }
    }
}

/// A flattening pass keeps the meaning of a term that is safe to flatten.
pub proof fn lemma_flatten_pass_meaning(t: Term)
    requires
        flatten_safe(t),
    ensures
        keeps_safe(flatten_pass(t), t),
    decreases spread(t), 1nat,
{
    lemma_flatten_operands(t);
    let r = flatten_pass(t);
    match t {
        Term::Compose(fs) => {
            let ss = splice(fs);
            let rs = r->Compose_0;
            lemma_splice_safe(fs);
            assert forall|i: int| 0 <= i < rs.len() implies keeps_safe(#[trigger] rs[i], ss[i]) by {
                lemma_flatten_meaning(ss[i]);
            }
            assert forall|c: Content| #[trigger] apply(r, c) == apply(t, c) by {
                assert forall|i: int| 0 <= i < rs.len() implies apply(#[trigger] rs[i], c)
                    == apply(ss[i], c) by {}
                lemma_apply_all_aligned(rs, c, ss, c);
                lemma_splice_meaning(fs, c);
            }
            assert forall|i: int| 0 <= i < rs.len() implies flatten_safe(#[trigger] rs[i]) by {}
        },
        Term::Chain(a, b) => {
            assert(flatten_safe(*a) && flatten_safe(*b));
            match (*a, *b) {
                (_, Term::Compose(bs)) => {
                    let cs = bs.map_values(|f: Term| chain(*a, f));
                    assert forall|c: Content| #[trigger] apply(r, c) == apply(t, c) by {
                        lemma_chained_left(*a, bs, c);
                        assert(apply(*b, apply(*a, c)) == apply_all(bs, apply(*a, c)));
                    }
                    assert forall|i: int| 0 <= i < cs.len() implies flatten_safe(
                        #[trigger] cs[i],
                    ) by {}
                },
                (Term::Compose(xs), _) => {
                    let cs = xs.map_values(|f: Term| chain(f, *b));
                    lemma_flatten_keeps_compose(*a);
                    assert forall|c: Content| #[trigger] apply(r, c) == apply(t, c) by {
                        lemma_chained_right(xs, *b, c);
                        assert(apply(*a, c) == apply_all(xs, c));
                    }
                    assert forall|i: int| 0 <= i < cs.len() implies flatten_safe(
                        #[trigger] cs[i],
                    ) by {}
                },
                _ => {
                    lemma_flatten_meaning(*a);
                    lemma_flatten_meaning(*b);
                    let fa = flatten_term(*a);
                    let fb = flatten_term(*b);
                    lemma_flatten_idempotent(*a);
                    if flatten_term(fa) is Compose {
                        lemma_flatten_sound(*b);
                    }
                    assert forall|c: Content| #[trigger] apply(r, c) == apply(t, c) by {
                        assert(apply(fa, c) == apply(*a, c));
                        assert(apply(fb, apply(*a, c)) == apply(*b, apply(*a, c)));
                    }
                },
            }
        },
        Term::Subtract(a, b) => {
            lemma_flatten_meaning(*a);
            lemma_flatten_meaning(*b);
            let fa = flatten_term(*a);
            let fb = flatten_term(*b);
            assert forall|c: Content| #[trigger] apply(r, c) == apply(t, c) by {
                assert(apply(fa, c) == apply(*a, c));
                assert(apply(fb, c) == apply(*b, c));
            }
        },
        _ => {},
    }
}

/// Semantic equivalence of flattening: the flat form of a filter that is
/// safe to flatten yields what the filter yields.
pub proof fn lemma_flatten_meaning(t: Term)
    requires
        flatten_safe(t),
    ensures
        keeps_safe(flatten_term(t), t),
    decreases spread(t), 2nat,
{
    lemma_flatten_pass_shrinks(t);
    lemma_flatten_pass_meaning(t);
    let r = flatten_pass(t);
    if r != t {
        lemma_flatten_meaning(r);
        assert forall|c: Content| #[trigger] apply(flatten_term(t), c) == apply(t, c) by {}
    }
}

/// Flatten distributivity, by meaning: the flat form of
/// `Chain(a, Compose(bs))` yields what the composition of `Chain(a, b)` for
/// each `b` in `bs` yields.
pub proof fn lemma_flatten_distributes_meaning(a: Term, bs: Seq<Term>)
    requires
        flatten_safe(chain(a, Term::Compose(bs))),
    ensures
        same_meaning(
            flatten_term(chain(a, Term::Compose(bs))),
            Term::Compose(bs.map_values(|b: Term| chain(a, b))),
        ),
{
    let t = chain(a, Term::Compose(bs));
    let cs = bs.map_values(|b: Term| chain(a, b));
    lemma_flatten_meaning(t);
    assert forall|c: Content| #[trigger]
        apply(flatten_term(t), c) == apply(Term::Compose(cs), c) by {
        lemma_chained_left(a, bs, c);
        assert(apply(Term::Compose(bs), apply(a, c)) == apply_all(bs, apply(a, c)));
    }
}

} // verus!
