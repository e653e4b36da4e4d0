//! Optimizing a filter without subtraction does not change what it yields.
//!
//! Subtraction is left out here for a reason: where two members of a
//! composition yield the same entry, removing a subtracted member from the
//! composition keeps the entry that the subtraction removed. Subtraction
//! without composition is taken up in `linear`.

use crate::filter::meaning::{
    apply, apply_all, below, lemma_apply_all_aligned, lemma_apply_all_contains,
    lemma_apply_all_push, lemma_below_below, lemma_simplify_meaning, lemma_splice_meaning,
    lemma_under_under, same_meaning, under, Content, Entry,
};
use crate::filter::rules::{
    common_post_term, common_pre_term, dedup, flatten_pass, flatten_term, group_runs, group_term,
    insert_sorted, iterate_steps, iterate_term, kept_members, last_chain_term, optimize_rounds,
    optimize_term, prefix_sort_term, simplify_pass, simplify_term, splice, step_members,
    step_term, without, ROUND_LIMIT, STEP_LIMIT,
};
use crate::filter::shrink::{
    lemma_flatten_operands, lemma_flatten_pass_shrinks, lemma_simplify_operands,
    lemma_simplify_pass_shrinks, lemma_step_operands,
};
use crate::filter::term::{chain, spread, weight, Term};
use vstd::prelude::*;

verus! {

/// No subtraction occurs in the term.
pub open spec fn subtract_free(t: Term) -> bool
    decreases t,
{
    match t {
        Term::Chain(a, b) => subtract_free(*a) && subtract_free(*b),
        Term::Compose(fs) => forall|i: int| 0 <= i < fs.len() ==> subtract_free(#[trigger] fs[i]),
        Term::Subtract(_, _) => false,
        _ => true,
    }
}

/// No subtraction occurs in any member.
pub open spec fn all_subtract_free(ts: Seq<Term>) -> bool {
    forall|i: int| 0 <= i < ts.len() ==> subtract_free(#[trigger] ts[i])
}

/// Every filter yields nothing for no content.
pub proof fn lemma_apply_nothing(t: Term)
    ensures
        apply(t, Set::empty()) == Set::<Entry>::empty(),
    decreases t,
{
    match t {
        Term::Subdir(p) => {
        },
        Term::Prefix(p) => {
        },
        Term::Chain(a, b) => {
            lemma_apply_nothing(*a);
            lemma_apply_nothing(*b);
        },
        Term::Compose(fs) => {
            lemma_apply_all_nothing(fs);
        },
        Term::Subtract(a, b) => {
            lemma_apply_nothing(*a);
        },
        _ => {},
    }
}

/// Every list of filters yields nothing for no content.
pub proof fn lemma_apply_all_nothing(ts: Seq<Term>)
    ensures
        apply_all(ts, Set::empty()) == Set::<Entry>::empty(),
    decreases ts,
{
    if ts.len() > 0 {
        lemma_apply_all_nothing(ts.drop_last());
        lemma_apply_nothing(ts.last());
    }
}

/// A filter without subtraction yields for a union of contents the union
/// of what it yields for each.
pub proof fn lemma_additive(t: Term, a: Content, b: Content)
    requires
        subtract_free(t),
    ensures
        apply(t, a.union(b)) == apply(t, a).union(apply(t, b)),
    decreases t,
{
    match t {
        Term::Identity => {},
        Term::Empty => {
        },
        Term::Subdir(p) => {
        },
        Term::Prefix(p) => {
        },
        Term::Chain(x, y) => {
            lemma_additive(*x, a, b);
            lemma_additive(*y, apply(*x, a), apply(*x, b));
        },
        Term::Compose(fs) => {
            lemma_additive_all(fs, a, b);
        },
        Term::Subtract(_, _) => {},
    }
}

/// A list of filters without subtraction yields for a union of contents
/// the union of what it yields for each.
pub proof fn lemma_additive_all(ts: Seq<Term>, a: Content, b: Content)
    requires
        all_subtract_free(ts),
    ensures
        apply_all(ts, a.union(b)) == apply_all(ts, a).union(apply_all(ts, b)),
    decreases ts,
{
    if ts.len() > 0 {
        assert(all_subtract_free(ts.drop_last()));
        lemma_additive_all(ts.drop_last(), a, b);
        lemma_additive(ts.last(), a, b);
    }
}

/// A chain distributed over the members on its right yields what the
/// chain yields.
pub proof fn lemma_chained_left(a: Term, bs: Seq<Term>, c: Content)
    ensures
        apply_all(bs.map_values(|f: Term| chain(a, f)), c) == apply_all(bs, apply(a, c)),
    decreases bs.len(),
{
    let cs = bs.map_values(|f: Term| chain(a, f));
    if bs.len() > 0 {
        lemma_chained_left(a, bs.drop_last(), c);
        assert(cs.drop_last() =~= bs.drop_last().map_values(|f: Term| chain(a, f)));
        assert(apply(cs.last(), c) == apply(bs.last(), apply(a, c)));
    }
}

/// A chain distributed over the members on its left yields what the chain
/// yields, when its right operand holds no subtraction.
pub proof fn lemma_chained_right(xs: Seq<Term>, b: Term, c: Content)
    requires
        subtract_free(b),
    ensures
        apply_all(xs.map_values(|f: Term| chain(f, b)), c) == apply(b, apply_all(xs, c)),
    decreases xs.len(),
{
    let cs = xs.map_values(|f: Term| chain(f, b));
    if xs.len() > 0 {
        lemma_chained_right(xs.drop_last(), b, c);
        assert(cs.drop_last() =~= xs.drop_last().map_values(|f: Term| chain(f, b)));
        assert(apply(cs.last(), c) == apply(b, apply(xs.last(), c)));
        lemma_additive(b, apply_all(xs.drop_last(), c), apply(xs.last(), c));
    } else {
        lemma_apply_nothing(b);
    }
}

/// Splicing keeps a list without subtraction so.
pub proof fn lemma_splice_free(ts: Seq<Term>)
    requires
        all_subtract_free(ts),
    ensures
        all_subtract_free(splice(ts)),
    decreases ts.len(),
{
    if ts.len() > 0 {
        lemma_splice_free(ts.drop_last());
    }
}

/// Dropping repeated members changes neither the union nor the absence
/// of subtraction.
pub proof fn lemma_dedup_meaning(ts: Seq<Term>, c: Content)
    ensures
        apply_all(dedup(ts), c) == apply_all(ts, c),
        all_subtract_free(ts) ==> all_subtract_free(dedup(ts)),
    decreases ts.len(),
{
    if ts.len() > 0 {
        let init = dedup(ts.drop_last());
        lemma_dedup_meaning(ts.drop_last(), c);
        if init.contains(ts.last()) {
            let k = choose|k: int| 0 <= k < init.len() && init[k] == ts.last();
            assert forall|e: Entry| apply(ts.last(), c).contains(e) implies apply_all(
                init,
                c,
            ).contains(e) by {
                lemma_apply_all_contains(init, c, e);
                assert(apply(init[k], c).contains(e));
            }
            assert(apply_all(init, c).union(apply(ts.last(), c)) =~= apply_all(init, c));
        } else {
            lemma_apply_all_push(init, ts.last(), c);
        }
    }
}

/// Dropping the empty members changes neither the union nor the absence
/// of subtraction.
pub proof fn lemma_without_empty_meaning(ts: Seq<Term>, c: Content)
    ensures
        apply_all(without(ts, Term::Empty), c) == apply_all(ts, c),
        all_subtract_free(ts) ==> all_subtract_free(without(ts, Term::Empty)),
    decreases ts.len(),
{
    if ts.len() > 0 {
        let init = without(ts.drop_last(), Term::Empty);
        lemma_without_empty_meaning(ts.drop_last(), c);
        if ts.last() == Term::Empty {
            assert(apply(ts.last(), c) == Set::<Entry>::empty());
        } else {
            lemma_apply_all_push(init, ts.last(), c);
        }
    }
}

/// Inserting a member adds what it yields to the union.
pub proof fn lemma_insert_sorted_meaning(sorted: Seq<Term>, x: Term, c: Content)
    ensures
        apply_all(insert_sorted(sorted, x), c) == apply_all(sorted, c).union(apply(x, c)),
        all_subtract_free(sorted) && subtract_free(x) ==> all_subtract_free(
            insert_sorted(sorted, x),
        ),
    decreases sorted.len(),
{
    if sorted.len() > 0 && crate::filter::term::sorts_before(x, sorted.last()) {
        let init = sorted.drop_last();
        lemma_insert_sorted_meaning(init, x, c);
        lemma_apply_all_push(insert_sorted(init, x), sorted.last(), c);
        assert(apply_all(insert_sorted(sorted, x), c) =~= apply_all(sorted, c).union(
            apply(x, c),
        ));
    } else {
        lemma_apply_all_push(sorted, x, c);
    }
}

/// Sorting changes neither the union nor the absence of subtraction.
pub proof fn lemma_prefix_sort_meaning(ms: Seq<Term>, c: Content)
    ensures
        apply_all(prefix_sort_term(ms), c) == apply_all(ms, c),
        all_subtract_free(ms) ==> all_subtract_free(prefix_sort_term(ms)),
    decreases ms.len(),
{
    if ms.len() > 0 {
        lemma_prefix_sort_meaning(ms.drop_last(), c);
        lemma_insert_sorted_meaning(prefix_sort_term(ms.drop_last()), ms.last(), c);
    }
}

/// The compositions of the groups of a list.
pub open spec fn composed(groups: Seq<Seq<Term>>) -> Seq<Term> {
    groups.map_values(|g: Seq<Term>| Term::Compose(g))
}

/// Grouping neighbours changes neither the union nor the absence of
/// subtraction.
pub proof fn lemma_group_runs_meaning(ms: Seq<Term>, by_head: bool, c: Content)
    ensures
        apply_all(composed(group_runs(ms, by_head)), c) == apply_all(ms, c),
        all_subtract_free(ms) ==> all_subtract_free(composed(group_runs(ms, by_head))),
    decreases ms.len(),
{
    if ms.len() > 0 {
        let init = group_runs(ms.drop_last(), by_head);
        let f = ms.last();
        let now = group_runs(ms, by_head);
        lemma_group_runs_meaning(ms.drop_last(), by_head, c);
        if init.len() > 0 && crate::filter::rules::joins(f, init.last()[0], by_head) {
            let n = init.len() - 1;
            let g = init.last();
            assert(composed(now).drop_last() =~= composed(init).drop_last());
            lemma_apply_all_push(g, f, c);
            assert(apply(Term::Compose(g.push(f)), c) == apply_all(g.push(f), c));
            assert(apply(Term::Compose(g), c) == apply_all(g, c));
            if all_subtract_free(ms) {
                assert forall|i: int| 0 <= i < composed(now).len() implies subtract_free(
                    #[trigger] composed(now)[i],
                ) by {
                    if i < n {
                        assert(composed(now)[i] == composed(init)[i]);
                    }
                }
            }
        } else {
            assert(composed(now) =~= composed(init).push(Term::Compose(seq![f])));
            lemma_apply_all_push(composed(init), Term::Compose(seq![f]), c);
            lemma_apply_all_push(Seq::<Term>::empty(), f, c);
        }
    }
}

/// A chain split at its last link yields what the chain yields.
pub proof fn lemma_last_chain_meaning(rest: Term, t: Term, c: Content)
    ensures
        apply(last_chain_term(rest, t).1, apply(last_chain_term(rest, t).0, c)) == apply(
            t,
            apply(rest, c),
        ),
        subtract_free(rest) && subtract_free(t) ==> subtract_free(last_chain_term(rest, t).0)
            && subtract_free(last_chain_term(rest, t).1),
    decreases t,
{
    match t {
        Term::Chain(a, b) => {
            lemma_last_chain_meaning(chain(rest, *a), *b, c);
        },
        _ => {},
    }
}

/// The same meaning and no subtraction: what every rewrite keeps of a
/// term without subtraction.
pub open spec fn keeps(r: Term, t: Term) -> bool {
    same_meaning(r, t) && subtract_free(r)
}

/// A flattening pass keeps the meaning of a term without subtraction.
pub proof fn lemma_flatten_pass_sound(t: Term)
    requires
        subtract_free(t),
    ensures
        keeps(flatten_pass(t), t),
    decreases spread(t), 1nat,
{
    lemma_flatten_operands(t);
    let r = flatten_pass(t);
    match t {
        Term::Compose(fs) => {
            let ss = splice(fs);
            let rs = r->Compose_0;
            lemma_splice_free(fs);
            assert forall|i: int| 0 <= i < rs.len() implies keeps(#[trigger] rs[i], ss[i]) by {
                lemma_flatten_sound(ss[i]);
            }
            assert forall|c: Content| #[trigger] apply(r, c) == apply(t, c) by {
                lemma_apply_all_aligned(rs, c, ss, c);
                lemma_splice_meaning(fs, c);
            }
        },
        Term::Chain(a, b) => {
            assert(subtract_free(*a) && subtract_free(*b));
            match (*a, *b) {
                (_, Term::Compose(bs)) => {
                    let cs = bs.map_values(|f: Term| chain(*a, f));
                    assert forall|c: Content| #[trigger] apply(r, c) == apply(t, c) by {
                        lemma_chained_left(*a, bs, c);
                        assert(apply(*b, apply(*a, c)) == apply_all(bs, apply(*a, c)));
                    }
                    assert forall|i: int| 0 <= i < cs.len() implies subtract_free(
                        #[trigger] cs[i],
                    ) by {}
                },
                (Term::Compose(xs), _) => {
                    let cs = xs.map_values(|f: Term| chain(f, *b));
                    assert forall|c: Content| #[trigger] apply(r, c) == apply(t, c) by {
                        lemma_chained_right(xs, *b, c);
                        assert(apply(*a, c) == apply_all(xs, c));
                    }
                    assert forall|i: int| 0 <= i < cs.len() implies subtract_free(
                        #[trigger] cs[i],
                    ) by {}
                },
                _ => {
                    lemma_flatten_sound(*a);
                    lemma_flatten_sound(*b);
                    let fa = flatten_term(*a);
                    let fb = flatten_term(*b);
                    assert forall|c: Content| #[trigger] apply(r, c) == apply(t, c) by {
                        assert(apply(fa, c) == apply(*a, c));
                        assert(apply(fb, apply(*a, c)) == apply(*b, apply(*a, c)));
                    }
                },
            }
        },
        _ => {},
    }
}

/// Flattening keeps the meaning of a term without subtraction.
pub proof fn lemma_flatten_sound(t: Term)
    requires
        subtract_free(t),
    ensures
        keeps(flatten_term(t), t),
    decreases spread(t), 2nat,
{
    lemma_flatten_pass_shrinks(t);
    lemma_flatten_pass_sound(t);
    let r = flatten_pass(t);
    if r != t {
        lemma_flatten_sound(r);
    }
}

/// A simplifying pass of a term without subtraction gives a term without
/// subtraction.
pub proof fn lemma_simplify_pass_free(t: Term)
    requires
        subtract_free(t),
    ensures
        subtract_free(simplify_pass(t)),
    decreases weight(t), 1nat,
{
    lemma_simplify_operands(t);
    let r = simplify_pass(t);
    match t {
        Term::Compose(fs) => {
            let ss = splice(fs);
            let rs = r->Compose_0;
            lemma_splice_free(fs);
            assert forall|i: int| 0 <= i < rs.len() implies subtract_free(#[trigger] rs[i]) by {
                lemma_simplify_free(ss[i]);
            }
        },
        Term::Chain(a, b) => {
            assert(subtract_free(*a) && subtract_free(*b));
            lemma_simplify_free(*a);
            lemma_simplify_free(*b);
            match (*a, *b) {
                (_, Term::Chain(x, y)) => {
                    assert(subtract_free(chain(*a, *x)));
                },
                (Term::Prefix(x), Term::Prefix(y)) => {},
                (Term::Subdir(x), Term::Subdir(y)) => {},
                (Term::Chain(x, y), Term::Prefix(p2)) => {
                    match *y {
                        Term::Prefix(p1) => {
                            lemma_simplify_free(*x);
                            assert(subtract_free(Term::Prefix(p2 + p1)));
                        },
                        _ => {
                        },
                    }
                },
                _ => {
                },
            }
        },
        _ => {},
    }
}

/// Simplifying a term without subtraction gives a term without
/// subtraction.
pub proof fn lemma_simplify_free(t: Term)
    requires
        subtract_free(t),
    ensures
        subtract_free(simplify_term(t)),
    decreases weight(t), 2nat,
{
    lemma_simplify_pass_shrinks(t);
    lemma_simplify_pass_free(t);
    if simplify_pass(t) != t {
        lemma_simplify_free(simplify_pass(t));
    }
}

/// Simplifying keeps the meaning of a term without subtraction.
pub proof fn lemma_simplify_sound(t: Term)
    requires
        subtract_free(t),
    ensures
        keeps(simplify_term(t), t),
{
    lemma_simplify_meaning(t);
    lemma_simplify_free(t);
}

/// The step of a composition of two or more members keeps the meaning of
/// a composition without subtraction.
pub proof fn lemma_step_compose_sound(t: Term)
    requires
        subtract_free(t),
        t is Compose,
        t->Compose_0.len() >= 2,
    ensures
        keeps(step_term(t), t),
    decreases weight(t), 0nat,
{
    let fs = t->Compose_0;
    let ms = kept_members(fs);
    let r = step_term(t);
    lemma_step_operands(t);
    assert(all_subtract_free(ms)) by {
        lemma_dedup_meaning(fs, Set::empty());
        lemma_without_empty_meaning(dedup(fs), Set::empty());
    }
    assert forall|c: Content| apply_all(ms, c) == #[trigger] apply(t, c) by {
        lemma_dedup_meaning(fs, c);
        lemma_without_empty_meaning(dedup(fs), c);
    }
    match common_pre_term(ms) {
        Some((common, rest)) => {
            assert(subtract_free(Term::Compose(rest)));
            assert forall|c: Content| #[trigger] apply(r, c) == apply(t, c) by {
                let d = apply(common, c);
                lemma_apply_all_aligned(ms, c, rest, d);
                assert(apply(Term::Compose(rest), d) == apply_all(rest, d));
            }
        },
        None => {
            match common_post_term(ms) {
                Some((common, rest)) => {
                    lemma_last_chain_meaning(Term::Identity, ms[0], Set::empty());
                    assert forall|i: int| 0 <= i < rest.len() implies subtract_free(
                        #[trigger] rest[i],
                    ) by {
                        lemma_last_chain_meaning(Term::Identity, ms[i], Set::empty());
                    }
                    assert(subtract_free(Term::Compose(rest)));
                    assert forall|c: Content| #[trigger] apply(r, c) == apply(t, c) by {
                        let cs = rest.map_values(|f: Term| chain(f, common));
                        lemma_chained_right(rest, common, c);
                        assert forall|i: int| 0 <= i < ms.len() implies apply(#[trigger] ms[i], c)
                            == apply(cs[i], c) by {
                            lemma_last_chain_meaning(Term::Identity, ms[i], c);
                        }
                        lemma_apply_all_aligned(ms, c, cs, c);
                        assert(apply(Term::Compose(rest), c) == apply_all(rest, c));
                    }
                },
                None => {
                    let groups = group_term(ms);
                    if groups.len() != ms.len() {
                        let by_head = group_runs(ms, true).len() != ms.len();
                        lemma_group_runs_meaning(ms, by_head, Set::empty());
                        assert forall|c: Content| #[trigger] apply(r, c) == apply(t, c) by {
                            lemma_group_runs_meaning(ms, by_head, c);
                        }
                    } else {
                        let sorted = step_members(fs);
                        let rs = r->Compose_0;
                        lemma_prefix_sort_meaning(ms, Set::empty());
                        assert forall|i: int| 0 <= i < rs.len() implies keeps(
                            #[trigger] rs[i],
                            sorted[i],
                        ) by {
                            lemma_step_sound(sorted[i]);
                        }
                        assert forall|c: Content| #[trigger] apply(r, c) == apply(t, c) by {
                            lemma_apply_all_aligned(rs, c, sorted, c);
                            lemma_prefix_sort_meaning(ms, c);
                        }
                    }
                },
            }
        },
    }
}

/// One step keeps the meaning of a term without subtraction.
pub proof fn lemma_step_sound(t: Term)
    requires
        subtract_free(t),
    ensures
        keeps(step_term(t), t),
    decreases weight(t), 1nat,
{
    let r = step_term(t);
    match t {
        Term::Subdir(p) => {
            if p.len() > 1 {
                let head = Term::Subdir(p.take(1));
                let tail = Term::Subdir(p.skip(1));
                assert(subtract_free(head) && subtract_free(tail));
                assert forall|c: Content| #[trigger] apply(r, c) == apply(t, c) by {
                    lemma_below_below(p.take(1), p.skip(1), c);
                    assert(p.take(1) + p.skip(1) =~= p);
                    assert(apply(tail, apply(head, c)) == below(p.skip(1), apply(head, c)));
                }
            }
        },
        Term::Prefix(p) => {
            if p.len() > 1 {
                let head = Term::Prefix(p.take(1));
                let tail = Term::Prefix(p.skip(1));
                assert(subtract_free(head) && subtract_free(tail));
                assert forall|c: Content| #[trigger] apply(r, c) == apply(t, c) by {
                    lemma_under_under(p.skip(1), p.take(1), c);
                    assert(apply(head, apply(tail, c)) == under(p.take(1), apply(tail, c)));
                }
            }
        },
        Term::Compose(fs) => {
            if fs.len() == 0 {
                assert forall|c: Content| #[trigger] apply(r, c) == apply(t, c) by {
                    assert(apply(t, c) == apply_all(fs, c));
                }
            } else if fs.len() == 1 {
                assert forall|c: Content| #[trigger] apply(r, c) == apply(t, c) by {
                    assert(apply(t, c) == apply_all(fs, c));
                    assert(apply_all(fs.drop_last(), c) == Set::<Entry>::empty());
                }
            } else {
                lemma_step_compose_sound(t);
            }
        },
        Term::Chain(a, b) => {
            assert(subtract_free(*a) && subtract_free(*b));
            match (*a, *b) {
                (Term::Chain(x, y), _) => {
                    assert(subtract_free(chain(*y, *b)));
                    assert forall|c: Content| #[trigger] apply(r, c) == apply(t, c) by {
                        assert(apply(*a, c) == apply(*y, apply(*x, c)));
                        assert(apply(chain(*y, *b), apply(*x, c)) == apply(*b, apply(
                            *y,
                            apply(*x, c),
                        )));
                    }
                },
                (Term::Identity, _) => {
                    assert forall|c: Content| #[trigger] apply(r, c) == apply(t, c) by {
                        assert(apply(*a, c) == c);
                    }
                },
                (_, Term::Identity) => {
                    assert forall|c: Content| #[trigger] apply(r, c) == apply(t, c) by {
                        assert(apply(*b, apply(*a, c)) == apply(*a, c));
                    }
                },
                _ => {
                    lemma_step_sound(*a);
                    lemma_step_sound(*b);
                    let sa = step_term(*a);
                    let sb = step_term(*b);
                    assert forall|c: Content| #[trigger] apply(r, c) == apply(t, c) by {
                        assert(apply(sa, c) == apply(*a, c));
                        assert(apply(sb, apply(*a, c)) == apply(*b, apply(*a, c)));
                    }
                },
            }
        },
        _ => {},
    }
}

/// Iterating keeps the meaning of a term without subtraction.
pub proof fn lemma_iterate_steps_sound(t: Term, n: nat)
    requires
        subtract_free(t),
    ensures
        keeps(iterate_steps(t, n), t),
    decreases n,
{
    if n > 0 {
        let s = step_term(t);
        lemma_step_sound(t);
        if s != t {
            lemma_iterate_steps_sound(s, (n - 1) as nat);
        }
    }
}

/// Rounds of simplifying and iterating keep the meaning of a term without
/// subtraction.
pub proof fn lemma_rounds_sound(g: Term, n: nat)
    requires
        subtract_free(g),
    ensures
        keeps(optimize_rounds(g, n), g),
    decreases n,
{
    let iterated = iterate_term(g);
    lemma_iterate_steps_sound(g, STEP_LIMIT as nat);
    let next = simplify_term(iterated);
    lemma_simplify_sound(iterated);
    lemma_iterate_steps_sound(next, STEP_LIMIT as nat);
    if !(next == simplify_term(g) || n == 0) {
        lemma_rounds_sound(next, (n - 1) as nat);
    }
}

/// Optimizing keeps the meaning of a filter without subtraction, and
/// brings no subtraction in.
pub proof fn lemma_optimize_sound(t: Term)
    requires
        subtract_free(t),
    ensures
        same_meaning(optimize_term(t), t),
        subtract_free(optimize_term(t)),
{
    lemma_flatten_sound(t);
    let g = flatten_term(t);
    lemma_rounds_sound(g, ROUND_LIMIT as nat);
}

/// Compose collapse, by meaning: for every filter `f` without
/// subtraction, the optimized form of `Compose([f])` yields what `f`
/// yields.
pub proof fn lemma_single_composition_sound(f: Term)
    requires
        subtract_free(f),
    ensures
        same_meaning(optimize_term(Term::Compose(seq![f])), f),
{
    let t = Term::Compose(seq![f]);
    lemma_optimize_sound(t);
    assert forall|c: Content| #[trigger] apply(optimize_term(t), c) == apply(f, c) by {
        assert(apply(t, c) == apply_all(seq![f], c));
        assert(apply_all(seq![f].drop_last(), c) == Set::<Entry>::empty());
    }
}

} // verus!
