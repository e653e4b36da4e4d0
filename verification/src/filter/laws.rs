//! Laws of the rewriting system, stated over terms.

use crate::filter::rules::{
    dedup, flatten_pass, flatten_term, insert_sorted, iterate_steps, iterate_term,
    optimize_rounds, optimize_term, prefix_sort_term, simplify_pass, simplify_term, splice,
    step_term, ROUND_LIMIT, STEP_LIMIT,
};
use crate::filter::shrink::{
    lemma_flatten_operands, lemma_flatten_pass_shrinks, lemma_flatten_shrinks,
    lemma_flatten_unfold, lemma_simplify_pass_shrinks, lemma_splice_spread,
    lemma_spread_sum_pointwise,
};
use crate::filter::term::{chain, sorts_before, spread, src_path, subtract, weight, Term};
use crate::path::{lemma_path_lt_asymmetric, path_lt};
use vstd::prelude::*;

verus! {

/// The flat form of a term is a fixed point of the flattening pass.
pub proof fn lemma_flatten_settles(t: Term)
    ensures
        flatten_pass(flatten_term(t)) == flatten_term(t),
    decreases spread(t),
{
    lemma_flatten_pass_shrinks(t);
    if flatten_pass(t) != t {
        lemma_flatten_settles(flatten_pass(t));
    }
}

/// Flattening is idempotent: the flat form of a flat form is itself.
pub proof fn lemma_flatten_idempotent(t: Term)
    ensures
        flatten_term(flatten_term(t)) == flatten_term(t),
{
    lemma_flatten_settles(t);
}

/// The simplified form of a term is a fixed point of the simplifying pass.
pub proof fn lemma_simplify_settles(t: Term)
    ensures
        simplify_pass(simplify_term(t)) == simplify_term(t),
    decreases weight(t),
{
    lemma_simplify_pass_shrinks(t);
    if simplify_pass(t) != t {
        lemma_simplify_settles(simplify_pass(t));
    }
}

/// Simplifying is idempotent: `simplify(simplify(f)) == simplify(f)` for
/// every filter `f`.
pub proof fn lemma_simplify_idempotent(t: Term)
    ensures
        simplify_term(simplify_term(t)) == simplify_term(t),
{
    lemma_simplify_settles(t);
}

/// Iterating a term that no step rule changes gives the term itself.
pub proof fn lemma_iterate_settled(t: Term)
    requires
        step_term(t) == t,
    ensures
        iterate_term(t) == t,
{
}

/// A term is in normal form when flattening, simplifying and stepping
/// each leave it as it is.
pub open spec fn normal(t: Term) -> bool {
    &&& flatten_term(t) == t
    &&& simplify_term(t) == t
    &&& step_term(t) == t
}

/// Where one step gives a term that no step rule changes, iterating gives
/// that term.
pub proof fn lemma_iterate_one_step(t: Term)
    requires
        step_term(step_term(t)) == step_term(t),
    ensures
        iterate_term(t) == step_term(t),
{
    let s = step_term(t);
    assert(iterate_steps(t, STEP_LIMIT as nat) == if s == t {
        t
    } else {
        iterate_steps(s, (STEP_LIMIT - 1) as nat)
    });
}

/// Rounds that start from a term which simplifying and stepping leave as
/// it is end at once with that term.
pub proof fn lemma_rounds_settled(t: Term, n: nat)
    requires
        simplify_term(t) == t,
        step_term(t) == t,
    ensures
        optimize_rounds(t, n) == t,
{
}

/// Optimizing leaves a term in normal form as it is.
pub proof fn lemma_optimize_normal(t: Term)
    requires
        normal(t),
    ensures
        optimize_term(t) == t,
{
}

/// Rounds that start from a term which one step turns into `f`, where
/// simplifying and stepping leave `f` as it is, end with `f`.
pub proof fn lemma_rounds_reach(g: Term, f: Term, n: nat)
    requires
        step_term(g) == f,
        step_term(f) == f,
        simplify_term(f) == f,
        n >= 1,
    ensures
        optimize_rounds(g, n) == f,
{
    lemma_iterate_one_step(g);
    lemma_rounds_settled(f, (n - 1) as nat);
}

/// Left identity, one step: a chain of the identity and `f` steps to `f`,
/// for every `f`.
pub proof fn lemma_step_identity_left(f: Term)
    ensures
        step_term(chain(Term::Identity, f)) == f,
{
}

/// Right identity, one step: a chain of `f` and the identity steps to `f`,
/// for every `f` that is not itself a chain (a chain is first made to lean
/// to the right).
pub proof fn lemma_step_identity_right(f: Term)
    requires
        !(f is Chain),
    ensures
        step_term(chain(f, Term::Identity)) == f,
{
}

/// Simplifying a subtraction gives a subtraction.
pub proof fn lemma_simplify_keeps_subtract(t: Term)
    requires
        t is Subtract,
    ensures
        simplify_term(t) is Subtract,
    decreases weight(t),
{
    lemma_simplify_pass_shrinks(t);
    if simplify_pass(t) != t {
        lemma_simplify_keeps_subtract(simplify_pass(t));
    }
}

/// Simplifying a composition gives a composition.
pub proof fn lemma_simplify_keeps_compose(t: Term)
    requires
        t is Compose,
    ensures
        simplify_term(t) is Compose,
    decreases weight(t),
{
    lemma_simplify_pass_shrinks(t);
    if simplify_pass(t) != t {
        lemma_simplify_keeps_compose(simplify_pass(t));
    }
}

/// Flattening a subtraction of a term from itself gives a subtraction of
/// a term from itself.
pub proof fn lemma_flatten_self_subtraction(f: Term)
    ensures
        flatten_term(subtract(f, f)) == subtract(flatten_term(f), flatten_term(f)),
{
    let t = subtract(f, f);
    let g = flatten_term(f);
    let s = subtract(g, g);
    lemma_flatten_unfold(t);
    if s != t {
        lemma_flatten_idempotent(f);
        lemma_flatten_unfold(s);
    }
}

/// Self-subtraction: `optimize(Subtract(f, f)) == Empty` for every `f`.
pub proof fn lemma_optimize_self_subtraction(f: Term)
    ensures
        optimize_term(subtract(f, f)) == Term::Empty,
{
    let g = flatten_term(f);
    let s = subtract(g, g);
    lemma_flatten_self_subtraction(f);
    assert(simplify_pass(Term::Empty) == Term::Empty);
    lemma_iterate_one_step(s);
    lemma_rounds_settled(Term::Empty, (ROUND_LIMIT - 1) as nat);
}

/// Compose collapse, one step: an empty composition steps to the empty
/// filter, and a composition of one member steps to that member.
pub proof fn lemma_step_small_composition(f: Term)
    ensures
        step_term(Term::Compose(Seq::empty())) == Term::Empty,
        step_term(Term::Compose(seq![f])) == f,
{
}

/// Compose collapse: `optimize(Compose([])) == Empty`.
pub proof fn lemma_optimize_empty_composition()
    ensures
        optimize_term(Term::Compose(Seq::empty())) == Term::Empty,
{
    let t = Term::Compose(Seq::<Term>::empty());
    assert(flatten_pass(t)->Compose_0 =~= Seq::<Term>::empty());
    assert(simplify_pass(Term::Empty) == Term::Empty);
    lemma_rounds_reach(t, Term::Empty, ROUND_LIMIT as nat);
}

/// Flatten distributivity, left: the flat form of `Chain(a, Compose(bs))`
/// is the flat form of the composition of `Chain(a, b)` for each `b` in
/// `bs`.
pub proof fn lemma_flatten_distributes_left(a: Term, bs: Seq<Term>)
    ensures
        flatten_term(chain(a, Term::Compose(bs))) == flatten_term(
            Term::Compose(bs.map_values(|b: Term| chain(a, b))),
        ),
{
    let t = chain(a, Term::Compose(bs));
    lemma_flatten_unfold(t);
}

/// Flatten distributivity, right: the flat form of `Chain(Compose(xs), b)`,
/// where `b` is no composition, is the flat form of the composition of
/// `Chain(x, b)` for each `x` in `xs`.
pub proof fn lemma_flatten_distributes_right(xs: Seq<Term>, b: Term)
    requires
        !(b is Compose),
    ensures
        flatten_term(chain(Term::Compose(xs), b)) == flatten_term(
            Term::Compose(xs.map_values(|x: Term| chain(x, b))),
        ),
{
    let t = chain(Term::Compose(xs), b);
    lemma_flatten_unfold(t);
}

/// No member stands directly before one that it should follow.
pub open spec fn path_ordered(s: Seq<Term>) -> bool {
    forall|i: int| 0 <= i < s.len() - 1 ==> !sorts_before(#[trigger] s[i + 1], s[i])
}

/// The path order never orders two members both ways.
pub proof fn lemma_sorts_before_asymmetric(x: Term, y: Term)
    requires
        sorts_before(x, y),
    ensures
        !sorts_before(y, x),
{
    if path_lt(src_path(x), src_path(y)) {
        lemma_path_lt_asymmetric(src_path(x), src_path(y));
    }
}

/// Inserting into an ordered list gives an ordered list with the same
/// members and the new one.
pub proof fn lemma_insert_sorted(sorted: Seq<Term>, x: Term)
    requires
        path_ordered(sorted),
    ensures
        path_ordered(insert_sorted(sorted, x)),
        insert_sorted(sorted, x).len() == sorted.len() + 1,
        insert_sorted(sorted, x).last() == (if sorted.len() > 0 && sorts_before(x, sorted.last()) {
            sorted.last()
        } else {
            x
        }),
        insert_sorted(sorted, x).to_multiset() == sorted.to_multiset().insert(x),
    decreases sorted.len(),
{
    broadcast use vstd::seq_lib::group_to_multiset_ensures;

    let r = insert_sorted(sorted, x);
    if sorted.len() > 0 && sorts_before(x, sorted.last()) {
        let init = sorted.drop_last();
        let last = sorted.last();
        lemma_insert_sorted(init, x);
        let inner = insert_sorted(init, x);
        assert forall|i: int| 0 <= i < r.len() - 1 implies !sorts_before(
            #[trigger] r[i + 1],
            r[i],
        ) by {
            if i < inner.len() - 1 {
            } else {
                if init.len() > 0 && sorts_before(x, init.last()) {
                    assert(last == sorted[(sorted.len() - 2) + 1]);
                } else {
                    lemma_sorts_before_asymmetric(x, last);
                }
            }
        }
        assert(sorted =~= init.push(last));
    }
}

/// Sorting by path permutes the members, and leaves no member directly
/// before one that it should follow.
pub proof fn lemma_prefix_sort(ms: Seq<Term>)
    ensures
        prefix_sort_term(ms).len() == ms.len(),
        prefix_sort_term(ms).to_multiset() == ms.to_multiset(),
        path_ordered(prefix_sort_term(ms)),
    decreases ms.len(),
{
    broadcast use vstd::seq_lib::group_to_multiset_ensures;

    if ms.len() > 0 {
        lemma_prefix_sort(ms.drop_last());
        lemma_insert_sorted(prefix_sort_term(ms.drop_last()), ms.last());
        assert(ms =~= ms.drop_last().push(ms.last()));
    }
}

/// Deduplication keeps exactly the members of the list.
pub proof fn lemma_dedup_members(ts: Seq<Term>, x: Term)
    ensures
        dedup(ts).contains(x) <==> ts.contains(x),
    decreases ts.len(),
{
    if ts.len() > 0 {
        let rest = ts.drop_last();
        let init = dedup(rest);
        let last = ts.last();
        lemma_dedup_members(rest, x);
        lemma_dedup_members(rest, last);
        if dedup(ts).contains(x) {
            let k = choose|k: int| 0 <= k < dedup(ts).len() && dedup(ts)[k] == x;
            if k < init.len() {
                let j = choose|j: int| 0 <= j < rest.len() && rest[j] == x;
            }
        }
        if ts.contains(x) {
            let j = choose|j: int| 0 <= j < ts.len() && ts[j] == x;
            if j < ts.len() - 1 {
                assert(rest[j] == x);
                let k = choose|k: int| 0 <= k < init.len() && init[k] == x;
                assert(dedup(ts)[k] == x);
            } else if !init.contains(last) {
                assert(dedup(ts)[init.len() as int] == x);
            }
        }
    }
}

/// Deduplication leaves no member twice.
pub proof fn lemma_dedup_distinct(ts: Seq<Term>)
    ensures
        dedup(ts).no_duplicates(),
    decreases ts.len(),
{
    if ts.len() > 0 {
        lemma_dedup_distinct(ts.drop_last());
    }
}

/// Flattening a composition gives a composition.
pub proof fn lemma_flatten_keeps_compose(t: Term)
    requires
        t is Compose,
    ensures
        flatten_term(t) is Compose,
    decreases spread(t),
{
    lemma_flatten_pass_shrinks(t);
    if flatten_pass(t) != t {
        lemma_flatten_keeps_compose(flatten_pass(t));
    }
}

/// Steps that have come to rest stay at rest: one more step allowed
/// changes nothing.
pub proof fn lemma_iterate_rested(g: Term, k: nat)
    requires
        step_term(iterate_steps(g, k)) == iterate_steps(g, k),
    ensures
        iterate_steps(g, k + 1) == iterate_steps(g, k),
    decreases k,
{
    let s = step_term(g);
    if s != g && k > 0 {
        lemma_iterate_rested(s, (k - 1) as nat);
    }
}

/// A round from the simplified form of `rested` gives that form again.
pub open spec fn comes_back(rested: Term) -> bool {
    simplify_term(iterate_term(simplify_term(rested))) == simplify_term(rested)
}

/// The rounds that start from `g` come to rest: the steps from `g` end
/// before the step limit, and one more round from the simplified result
/// gives that result again.
pub open spec fn rests(g: Term) -> bool {
    let rested = iterate_steps(g, (STEP_LIMIT - 1) as nat);
    &&& step_term(rested) == rested
    &&& comes_back(rested)
}

/// What the rounds from `g` end with, where they come to rest.
pub open spec fn rest_of(g: Term) -> Term {
    iterate_term(simplify_term(iterate_steps(g, (STEP_LIMIT - 1) as nat)))
}

/// Rounds from a term whose steps lead to `rested`, where a round from
/// the simplified `rested` gives it again, end with that form iterated.
pub proof fn lemma_rounds_rested(x: Term, rested: Term, n: nat)
    requires
        iterate_term(x) == rested,
        simplify_term(iterate_term(simplify_term(rested))) == simplify_term(rested),
    ensures
        optimize_rounds(x, n) == iterate_term(simplify_term(rested)),
{
    let simple = simplify_term(rested);
    lemma_simplify_idempotent(rested);
    if !(simple == simplify_term(x) || n == 0) {
        assert(optimize_rounds(x, n) == optimize_rounds(simple, (n - 1) as nat));
    }
}

/// Rounds from a term that comes to rest end with its rest.
pub proof fn lemma_rounds_rest(g: Term, n: nat)
    requires
        rests(g),
    ensures
        optimize_rounds(g, n) == rest_of(g),
{
    let rested = iterate_steps(g, (STEP_LIMIT - 1) as nat);
    lemma_iterate_rested(g, (STEP_LIMIT - 1) as nat);
    lemma_rounds_rested(g, rested, n);
}

/// A term in normal form comes to rest, with itself.
pub proof fn lemma_normal_rests(t: Term)
    requires
        normal(t),
    ensures
        rests(t),
        rest_of(t) == t,
{
    lemma_iterate_settled(t);
}

/// The steps from the flat forms of `a` and of `b` end in the same term,
/// and either the first round ends the run for both or for neither, or a
/// round from that term comes back to it.
pub open spec fn steps_agree(a: Term, b: Term) -> bool {
    let rested = iterate_term(flatten_term(a));
    let simple = simplify_term(rested);
    &&& rested == iterate_term(flatten_term(b))
    &&& {
        ||| (simple == simplify_term(flatten_term(a))) == (simple == simplify_term(
            flatten_term(b),
        ))
        ||| comes_back(rested)
    }
}

/// Two filters whose steps agree have one optimized form.
pub proof fn lemma_optimize_same_steps(a: Term, b: Term)
    requires
        steps_agree(a, b),
    ensures
        optimize_term(a) == optimize_term(b),
{
    let rested = iterate_term(flatten_term(a));
    if comes_back(rested) {
        lemma_rounds_rested(flatten_term(a), rested, ROUND_LIMIT as nat);
        lemma_rounds_rested(flatten_term(b), rested, ROUND_LIMIT as nat);
    }
}

/// Left identity after optimization:
/// `optimize(Chain(Identity, f)) == optimize(f)` for every `f` with whose
/// steps the steps of the chain agree.
pub proof fn lemma_optimize_identity_left(f: Term)
    requires
        steps_agree(chain(Term::Identity, f), f),
    ensures
        optimize_term(chain(Term::Identity, f)) == optimize_term(f),
{
    lemma_optimize_same_steps(chain(Term::Identity, f), f);
}

/// Right identity after optimization:
/// `optimize(Chain(f, Identity)) == optimize(f)` for every `f` with whose
/// steps the steps of the chain agree.
pub proof fn lemma_optimize_identity_right(f: Term)
    requires
        steps_agree(chain(f, Term::Identity), f),
    ensures
        optimize_term(chain(f, Term::Identity)) == optimize_term(f),
{
    lemma_optimize_same_steps(chain(f, Term::Identity), f);
}

/// Compose collapse: `optimize(Compose([f])) == optimize(f)` for every `f`
/// with whose steps the steps of the composition agree.
pub proof fn lemma_optimize_single_composition(f: Term)
    requires
        steps_agree(Term::Compose(seq![f]), f),
    ensures
        optimize_term(Term::Compose(seq![f])) == optimize_term(f),
{
    lemma_optimize_same_steps(Term::Compose(seq![f]), f);
}

/// Steps that lead from `u` in one step to `g` agree with the steps from
/// `g`, where the rounds from `g` come to rest.
pub proof fn lemma_one_step_agrees(u: Term, g: Term)
    requires
        step_term(u) == g,
        u != g,
        rests(g),
    ensures
        iterate_term(u) == iterate_term(g),
        comes_back(iterate_term(g)),
{
    lemma_iterate_rested(g, (STEP_LIMIT - 1) as nat);
}

/// The steps of `Chain(Identity, f)` agree with those of `f`, for every
/// `f` whose flat form is no composition and comes to rest.
pub proof fn lemma_identity_left_agrees(f: Term)
    requires
        !(flatten_term(f) is Compose),
        rests(flatten_term(f)),
    ensures
        steps_agree(chain(Term::Identity, f), f),
{
    let g = flatten_term(f);
    let t = chain(Term::Identity, f);
    let u = chain(Term::Identity, g);
    if f is Compose {
        lemma_flatten_keeps_compose(f);
    }
    lemma_flatten_operands(t);
    assert(flatten_pass(Term::Identity) == Term::Identity);
    lemma_flatten_unfold(t);
    lemma_flatten_operands(u);
    lemma_flatten_idempotent(f);
    lemma_flatten_unfold(u);
    lemma_step_identity_left(g);
    lemma_one_step_agrees(u, g);
}

/// The steps of `Chain(f, Identity)` agree with those of `f`, for every
/// `f` whose flat form is neither a composition nor a chain and comes to
/// rest.
pub proof fn lemma_identity_right_agrees(f: Term)
    requires
        !(flatten_term(f) is Compose),
        !(flatten_term(f) is Chain),
        rests(flatten_term(f)),
    ensures
        steps_agree(chain(f, Term::Identity), f),
{
    let g = flatten_term(f);
    let t = chain(f, Term::Identity);
    let u = chain(g, Term::Identity);
    if f is Compose {
        lemma_flatten_keeps_compose(f);
    }
    lemma_flatten_operands(t);
    assert(flatten_pass(Term::Identity) == Term::Identity);
    lemma_flatten_unfold(t);
    lemma_flatten_operands(u);
    lemma_flatten_idempotent(f);
    lemma_flatten_unfold(u);
    lemma_step_identity_right(g);
    lemma_one_step_agrees(u, g);
}

/// The members of a composition that a flattening pass leaves as it is
/// are flat, and none is a composition to splice.
pub proof fn lemma_flat_members(ws: Seq<Term>)
    requires
        flatten_pass(Term::Compose(ws)) == Term::Compose(ws),
    ensures
        splice(ws) == ws,
        forall|i: int| 0 <= i < ws.len() ==> flatten_term(#[trigger] ws[i]) == ws[i],
{
    let g = Term::Compose(ws);
    let ss = splice(ws);
    let rs = flatten_pass(g)->Compose_0;
    lemma_flatten_operands(g);
    assert forall|i: int| 0 <= i < rs.len() implies rs[i] == flatten_term(ss[i]) && (rs[i]
        == ss[i] || spread(rs[i]) < spread(ss[i])) by {
        lemma_flatten_shrinks(ss[i]);
    }
    lemma_spread_sum_pointwise(rs, ss);
    lemma_splice_spread(ws);
}

/// A composition of one member that is no composition, but flattens to
/// one, has the flat form of its member.
pub proof fn lemma_flatten_single_composition(f: Term)
    requires
        !(f is Compose),
        flatten_term(f) is Compose,
    ensures
        flatten_term(Term::Compose(seq![f])) == flatten_term(f),
{
    let g = flatten_term(f);
    let ws = g->Compose_0;
    let t = Term::Compose(seq![f]);
    let u = Term::Compose(seq![g]);
    lemma_flatten_operands(t);
    assert(seq![f].drop_last() =~= Seq::<Term>::empty());
    assert(splice(Seq::<Term>::empty()) =~= Seq::<Term>::empty());
    assert(flatten_pass(t)->Compose_0 =~= seq![g]);
    lemma_flatten_unfold(t);
    lemma_flatten_settles(f);
    lemma_flat_members(ws);
    lemma_flatten_operands(u);
    assert(seq![g].drop_last() =~= Seq::<Term>::empty());
    assert(flatten_pass(u)->Compose_0 =~= ws) by {
        assert forall|i: int| 0 <= i < ws.len() implies flatten_pass(u)->Compose_0[i]
            == ws[i] by {}
    }
    lemma_flatten_unfold(u);
    lemma_flatten_idempotent(f);
}

/// The steps of `Compose([f])` agree with those of `f`, for every `f`
/// that is no composition and whose flat form is a composition or comes
/// to rest.
pub proof fn lemma_single_composition_agrees(f: Term)
    requires
        !(f is Compose),
        flatten_term(f) is Compose || rests(flatten_term(f)),
    ensures
        steps_agree(Term::Compose(seq![f]), f),
{
    let g = flatten_term(f);
    let t = Term::Compose(seq![f]);
    let u = Term::Compose(seq![g]);
    if g is Compose {
        lemma_flatten_single_composition(f);
    } else {
        lemma_flatten_operands(t);
        assert(seq![f].drop_last() =~= Seq::<Term>::empty());
        assert(splice(Seq::<Term>::empty()) =~= Seq::<Term>::empty());
        assert(flatten_pass(t)->Compose_0 =~= seq![g]);
        lemma_flatten_unfold(t);
        lemma_flatten_operands(u);
        lemma_flatten_idempotent(f);
        assert(seq![g].drop_last() =~= Seq::<Term>::empty());
        assert(flatten_pass(u)->Compose_0 =~= seq![g]);
        lemma_flatten_unfold(u);
        lemma_step_small_composition(g);
        lemma_one_step_agrees(u, g);
    }
}

/// Idempotence: `optimize(optimize(f)) == optimize(f)` for every `f`
/// whose flat form comes to rest in an optimized form that is flat and
/// that no step rule changes.
pub proof fn lemma_optimize_idempotent(f: Term)
    requires
        rests(flatten_term(f)),
        flatten_term(optimize_term(f)) == optimize_term(f),
        step_term(optimize_term(f)) == optimize_term(f),
    ensures
        optimize_term(optimize_term(f)) == optimize_term(f),
{
    let g = flatten_term(f);
    let r = optimize_term(f);
    lemma_rounds_rest(g, ROUND_LIMIT as nat);
    lemma_rounds_rest(r, ROUND_LIMIT as nat);
}

/// The three laws above for a term in normal form that is no
/// composition: the optimized forms are the term itself.
pub proof fn lemma_optimize_around_normal(f: Term)
    requires
        normal(f),
        !(f is Compose),
    ensures
        optimize_term(f) == f,
        optimize_term(chain(Term::Identity, f)) == f,
        !(f is Chain) ==> optimize_term(chain(f, Term::Identity)) == f,
        optimize_term(Term::Compose(seq![f])) == f,
{
    lemma_normal_rests(f);
    lemma_optimize_normal(f);
    lemma_identity_left_agrees(f);
    lemma_optimize_identity_left(f);
    lemma_single_composition_agrees(f);
    lemma_optimize_single_composition(f);
    if !(f is Chain) {
        lemma_identity_right_agrees(f);
        lemma_optimize_identity_right(f);
    }
}

/// The three laws hold for a subdirectory of two segments, whose
/// optimized form is not the filter itself but the chain of its segments.
pub proof fn lemma_optimize_around_two_segments(a: Seq<u8>, b: Seq<u8>)
    ensures
        ({
            let f = Term::Subdir(seq![a, b]);
            &&& optimize_term(chain(Term::Identity, f)) == optimize_term(f)
            &&& optimize_term(chain(f, Term::Identity)) == optimize_term(f)
            &&& optimize_term(Term::Compose(seq![f])) == optimize_term(f)
        }),
{
    let p = seq![a, b];
    let f = Term::Subdir(p);
    assert(flatten_pass(f) == f);
    let sa = Term::Subdir(p.take(1));
    let sb = Term::Subdir(p.skip(1));
    let s = chain(sa, sb);
    assert(step_term(sa) == sa);
    assert(step_term(sb) == sb);
    assert(iterate_steps(s, (STEP_LIMIT - 2) as nat) == s);
    assert(p.take(1) + p.skip(1) =~= p);
    assert(simplify_pass(s) == f);
    assert(simplify_pass(f) == f);
    assert(iterate_steps(s, (STEP_LIMIT - 1) as nat) == s);
    lemma_identity_left_agrees(f);
    lemma_optimize_identity_left(f);
    lemma_identity_right_agrees(f);
    lemma_optimize_identity_right(f);
    lemma_single_composition_agrees(f);
    lemma_optimize_single_composition(f);
}

} // verus!
