//! What a filter does to content, as a model, and the proof that
//! simplifying a filter does not change it.
//!
//! Content is modelled as a set of entries, each a path and the identifier
//! of what lies there. A composition yields the union of what its members
//! yield; where two members write to the same path, both entries are kept.

use crate::filter::rules::{simplify_pass, simplify_term, splice};
use crate::filter::shrink::{lemma_simplify_operands, lemma_simplify_pass_shrinks};
use crate::filter::term::{chain, weight, Term};
use crate::path::PathModel;
use vstd::prelude::*;

verus! {

/// One entry of a tree: a path and the identifier of the object there.
pub type Entry = (PathModel, int);

/// The entries of a tree.
pub type Content = Set<Entry>;

/// The entries below `p`, with `p` taken off their paths.
pub open spec fn below(p: PathModel, c: Content) -> Content {
    Set::new(|e: Entry| c.contains((p + e.0, e.1)))
}

/// The entries of `c`, with `p` put before their paths.
pub open spec fn under(p: PathModel, c: Content) -> Content {
    Set::new(|e: Entry| p.is_prefix_of(e.0) && c.contains((e.0.skip(p.len() as int), e.1)))
}

/// The content that a filter yields for the content `c`.
pub open spec fn apply(t: Term, c: Content) -> Content
    decreases t,
{
    match t {
        Term::Identity => c,
        Term::Empty => Set::empty(),
        Term::Subdir(p) => below(p, c),
        Term::Prefix(p) => under(p, c),
        Term::Chain(a, b) => apply(*b, apply(*a, c)),
        Term::Compose(fs) => apply_all(fs, c),
        Term::Subtract(a, b) => apply(*a, c).difference(apply(*b, c)),
    }
}

/// The union of what the filters yield for the content `c`.
pub open spec fn apply_all(ts: Seq<Term>, c: Content) -> Content
    decreases ts,
{
    if ts.len() == 0 {
        Set::empty()
    } else {
        apply_all(ts.drop_last(), c).union(apply(ts.last(), c))
    }
}

/// Two filters that yield the same content for every content.
pub open spec fn same_meaning(a: Term, b: Term) -> bool {
    forall|c: Content| #[trigger] apply(a, c) == apply(b, c)
}

/// An entry lies in a union exactly when some member yields it.
pub proof fn lemma_apply_all_contains(ts: Seq<Term>, c: Content, e: Entry)
    ensures
        apply_all(ts, c).contains(e) <==> exists|i: int|
            0 <= i < ts.len() && #[trigger] apply(ts[i], c).contains(e),
    decreases ts.len(),
{
    if ts.len() > 0 {
        let init = ts.drop_last();
        lemma_apply_all_contains(init, c, e);
        if apply_all(ts, c).contains(e) && !apply(ts.last(), c).contains(e) {
            let i = choose|i: int| 0 <= i < init.len() && #[trigger] apply(init[i], c).contains(e);
            assert(apply(ts[i], c).contains(e));
        }
        if exists|i: int| 0 <= i < ts.len() && #[trigger] apply(ts[i], c).contains(e) {
            let i = choose|i: int| 0 <= i < ts.len() && #[trigger] apply(ts[i], c).contains(e);
            if i < ts.len() - 1 {
                assert(apply(init[i], c).contains(e));
            }
        }
    }
}

/// The union over a list with one more member.
pub proof fn lemma_apply_all_push(ts: Seq<Term>, x: Term, c: Content)
    ensures
        apply_all(ts.push(x), c) == apply_all(ts, c).union(apply(x, c)),
{
    assert(ts.push(x).drop_last() =~= ts);
}

/// The union over two lists, one after the other.
pub proof fn lemma_apply_all_concat(a: Seq<Term>, b: Seq<Term>, c: Content)
    ensures
        apply_all(a + b, c) == apply_all(a, c).union(apply_all(b, c)),
    decreases b.len(),
{
    if b.len() == 0 {
    } else {
        lemma_apply_all_concat(a, b.drop_last(), c);
        assert((a + b).drop_last() =~= a + b.drop_last());
    }
}

/// Splicing nested compositions into a list does not change its union.
pub proof fn lemma_splice_meaning(ts: Seq<Term>, c: Content)
    ensures
        apply_all(splice(ts), c) == apply_all(ts, c),
    decreases ts.len(),
{
    if ts.len() > 0 {
        let init = ts.drop_last();
        lemma_splice_meaning(init, c);
        assert(apply_all(ts, c) == apply_all(init, c).union(apply(ts.last(), c)));
        match ts.last() {
            Term::Compose(v) => {
                lemma_apply_all_concat(splice(init), v, c);
            },
            f => {
                lemma_apply_all_push(splice(init), f, c);
            },
        }
    }
}

/// Two lists, member `i` of the first yielding for `c` what member `i` of
/// the second yields for `d`: their unions for `c` and for `d` agree.
pub proof fn lemma_apply_all_aligned(rs: Seq<Term>, c: Content, ss: Seq<Term>, d: Content)
    requires
        rs.len() == ss.len(),
        forall|i: int| 0 <= i < rs.len() ==> apply(#[trigger] rs[i], c) == apply(ss[i], d),
    ensures
        apply_all(rs, c) == apply_all(ss, d),
    decreases rs.len(),
{
    if rs.len() > 0 {
        lemma_apply_all_aligned(rs.drop_last(), c, ss.drop_last(), d);
    }
}

/// Two subdirectory filters in a row are the subdirectory filter of the
/// joined path.
pub proof fn lemma_below_below(x: PathModel, y: PathModel, c: Content)
    ensures
        below(y, below(x, c)) == below(x + y, c),
{
    assert forall|e: Entry| below(y, below(x, c)).contains(e) <==> below(x + y, c).contains(
        e,
    ) by {
        assert(x + (y + e.0) =~= (x + y) + e.0);
    }
}

/// Two prefix filters in a row are the prefix filter of the joined path,
/// the later prefix outermost.
pub proof fn lemma_under_under(x: PathModel, y: PathModel, c: Content)
    ensures
        under(y, under(x, c)) == under(y + x, c),
{
    assert forall|e: Entry| under(y, under(x, c)).contains(e) <==> under(y + x, c).contains(
        e,
    ) by {
        let p = e.0;
        if y.is_prefix_of(p) && x.is_prefix_of(p.skip(y.len() as int)) {
            assert(p.skip(y.len() as int).skip(x.len() as int) =~= p.skip((y + x).len() as int));
        }
        if (y + x).is_prefix_of(p) {
            assert(y =~= p.subrange(0, y.len() as int));
            assert(x =~= p.skip(y.len() as int).subrange(0, x.len() as int)) by {
                assert forall|i: int| 0 <= i < x.len() implies x[i] == p[y.len() + i] by {
                    assert((y + x)[y.len() + i] == p.subrange(0, (y + x).len() as int)[y.len()
                        + i]);
                }
            }
        }
    }
}

/// A simplifying pass does not change what a filter yields.
pub proof fn lemma_simplify_pass_meaning(t: Term)
    ensures
        same_meaning(simplify_pass(t), t),
    decreases weight(t), 1nat,
{
    lemma_simplify_operands(t);
    assert forall|c: Content| #[trigger] apply(simplify_pass(t), c) == apply(t, c) by {
        match t {
            Term::Compose(fs) => {
                let ss = splice(fs);
                let rs = simplify_pass(t)->Compose_0;
                assert forall|i: int| 0 <= i < rs.len() implies apply(#[trigger] rs[i], c)
                    == apply(ss[i], c) by {
                    lemma_simplify_meaning(ss[i]);
                }
                lemma_apply_all_aligned(rs, c, ss, c);
                lemma_splice_meaning(fs, c);
            },
            Term::Chain(a, b) => {
                lemma_simplify_meaning(*a);
                lemma_simplify_meaning(*b);
                let mid = apply(*a, c);
                match (*a, *b) {
                    (_, Term::Chain(x, y)) => {
                        let r = chain(chain(*a, *x), *y);
                        assert(apply(chain(*a, *x), c) == apply(*x, mid));
                        assert(apply(r, c) == apply(*y, apply(chain(*a, *x), c)));
                        assert(apply(*b, mid) == apply(*y, apply(*x, mid)));
                    },
                    (Term::Prefix(x), Term::Prefix(y)) => {
                        lemma_under_under(x, y, c);
                    },
                    (Term::Subdir(x), Term::Subdir(y)) => {
                        lemma_below_below(x, y, c);
                    },
                    (Term::Chain(x, y), Term::Prefix(p2)) => {
                        match *y {
                            Term::Prefix(p1) => {
                                lemma_simplify_meaning(*x);
                                let inner = apply(*x, c);
                                assert(apply(simplify_term(*x), c) == inner);
                                assert(apply(Term::Prefix(p2 + p1), inner) == under(
                                    p2 + p1,
                                    inner,
                                ));
                                assert(apply(*y, inner) == under(p1, inner));
                                lemma_under_under(p1, p2, inner);
                            },
                            _ => {
                                let r = chain(simplify_term(*a), simplify_term(*b));
                                assert(apply(r, c) == apply(simplify_term(*b), apply(
                                    simplify_term(*a),
                                    c,
                                )));
                            },
                        }
                    },
                    _ => {
                        let r = chain(simplify_term(*a), simplify_term(*b));
                        assert(apply(r, c) == apply(simplify_term(*b), apply(
                            simplify_term(*a),
                            c,
                        )));
                    },
                }
            },
            Term::Subtract(a, b) => {
                lemma_simplify_meaning(*a);
                lemma_simplify_meaning(*b);
                let r = crate::filter::term::subtract(simplify_term(*a), simplify_term(*b));
                assert(apply(r, c) == apply(simplify_term(*a), c).difference(
                    apply(simplify_term(*b), c),
                ));
            },
            _ => {},
        }
    }
}

/// Semantic equivalence of simplifying: for every filter and every
/// content, the simplified filter yields what the filter yields.
pub proof fn lemma_simplify_meaning(t: Term)
    ensures
        same_meaning(simplify_term(t), t),
    decreases weight(t), 2nat,
{
    lemma_simplify_pass_shrinks(t);
    lemma_simplify_pass_meaning(t);
    let r = simplify_pass(t);
    if r != t {
        lemma_simplify_meaning(r);
    }
}

} // verus!
