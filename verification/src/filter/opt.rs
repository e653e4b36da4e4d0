//! Filter optimization and transformation functions. All of them convert a
//! filter from one representation into another; each contract names the
//! term that the result denotes.

use crate::filter::laws::{lemma_prefix_sort, path_ordered};
use crate::filter::members::{
    chain_each, chain_of, compose_each, compose_members, dedup_members, is_empty, is_identity,
    precedes, prefix_of, remove_all, remove_members, splice_members, subdir_of,
};
use crate::filter::memo::Memo;
use crate::filter::rules::{
    chain_init, chain_last, common_post_term, common_pre_term, flatten_pass, flatten_term,
    group_runs, group_term, insert_sorted, iterate_steps, iterate_term, joins, last_chain_term,
    optimize_rounds, optimize_term, prefix_sort_term, same_head, same_head_at, simplify_pass,
    simplify_term, step_term, ROUND_LIMIT, STEP_LIMIT,
};
use crate::filter::shrink::{
    lemma_flatten_operands, lemma_flatten_pass_shrinks, lemma_simplify_operands,
    lemma_simplify_pass_shrinks, lemma_step_operands,
};
use crate::filter::store::{has_filter, Filter, FilterStore, Op};
use crate::filter::term::{chain, spread, subtract, weight, Term};
use vstd::prelude::*;

verus! {

/// Splits a chain at its last link. The second handle of the result is the
/// last filter of the chain `filter`; the first is `rest` followed by the
/// filters before it.
pub fn last_chain(store: &mut FilterStore, rest: Filter, filter: Filter) -> (r: (Filter, Filter))
    requires
        old(store).wf(),
        old(store).contains(rest),
        old(store).contains(filter),
    ensures
        final(store).wf(),
        final(store).extends(old(store)),
        final(store).contains(r.0),
        final(store).contains(r.1),
        (final(store).term(r.0), final(store).term(r.1)) == last_chain_term(
            old(store).term(rest),
            old(store).term(filter),
        ),
    decreases filter.id,
{
    let parts = match store.get(filter) {
        Op::Chain(a, b) => Some((*a, *b)),
        _ => None,
    };
    match parts {
        Some((a, b)) => {
            let head = store.intern(Op::Chain(rest, a));
            assert(old(store).contains(b));
            last_chain(store, head, b)
        },
        None => (rest, filter),
    }
}

/// The common leading filter of a list of chains, with what follows it in
/// each member; `None` if the list is empty, or a member is no chain or
/// begins with another filter.
pub fn common_pre(store: &FilterStore, filters: &Vec<Filter>) -> (r: Option<(Filter, Vec<Filter>)>)
    requires
        store.wf(),
        store.contains_all(filters@),
    ensures
        match r {
            Some((common, rest)) => {
                &&& store.contains(common)
                &&& store.contains_all(rest@)
                &&& common_pre_term(store.terms(filters@)) == Some(
                    (store.term(common), store.terms(rest@)),
                )
            },
            None => common_pre_term(store.terms(filters@)) is None,
        },
{
    let ghost ms = store.terms(filters@);
    if filters.len() == 0 {
        return None;
    }
    let first = match store.get(filters[0]) {
        Op::Chain(a, _) => Some(*a),
        _ => None,
    };
    let common = match first {
        Some(a) => a,
        None => {
            return None;
        },
    };
    let mut rest: Vec<Filter> = Vec::new();
    let mut i: usize = 0;
    while i < filters.len()
        invariant
            i <= filters.len(),
            store.wf(),
            store.contains_all(filters@),
            store.contains(common),
            ms == store.terms(filters@),
            ms[0] is Chain,
            *ms[0]->Chain_0 == store.term(common),
            rest.len() == i,
            store.contains_all(rest@),
            forall|k: int| 0 <= k < i ==> same_head_at(ms, k),
            forall|k: int| 0 <= k < i ==> *(#[trigger] ms[k])->Chain_1 == store.term(rest@[k]),
        decreases filters.len() - i,
    {
        let parts = match store.get(filters[i]) {
            Op::Chain(a, b) => Some((*a, *b)),
            _ => None,
        };
        match parts {
            Some((a, b)) => {
                if a != common {
                    proof {
                        store.lemma_same_term(a, common);
                        assert(!same_head_at(ms, i as int));
                    }
                    return None;
                }
                rest.push(b);
            },
            None => {
                return None;
            },
        }
        i += 1;
    }
    proof {
        assert forall|k: int| 0 <= k < ms.len() implies same_head(#[trigger] ms[k], ms[0]) by {
            assert(same_head_at(ms, k));
        }
    }
    Some((common, rest))
}

/// The common last link of a list of members, with what precedes it in
/// each; `None` if the list is empty, the members end differently, or the
/// common link is the identity.
pub fn common_post(store: &mut FilterStore, filters: &Vec<Filter>) -> (r: Option<
    (Filter, Vec<Filter>),
>)
    requires
        old(store).wf(),
        old(store).contains_all(filters@),
    ensures
        final(store).wf(),
        final(store).extends(old(store)),
        match r {
            Some((common, rest)) => {
                &&& final(store).contains(common)
                &&& final(store).contains_all(rest@)
                &&& common_post_term(old(store).terms(filters@)) == Some(
                    (final(store).term(common), final(store).terms(rest@)),
                )
            },
            None => common_post_term(old(store).terms(filters@)) is None,
        },
{
    let ghost ms = old(store).terms(filters@);
    let identity = store.intern(Op::Identity);
    let mut rest: Vec<Filter> = Vec::new();
    let mut common: Option<Filter> = None;
    let mut i: usize = 0;
    while i < filters.len()
        invariant
            i <= filters.len(),
            store.wf(),
            store.extends(old(store)),
            old(store).contains_all(filters@),
            ms == old(store).terms(filters@),
            store.contains(identity),
            store.term(identity) == Term::Identity,
            rest.len() == i,
            store.contains_all(rest@),
            (i == 0) <==> (common is None),
            common matches Some(c) ==> store.contains(c) && store.term(c) == chain_last(ms[0]),
            forall|k: int| 0 <= k < i ==> chain_last(#[trigger] ms[k]) == chain_last(ms[0]),
            forall|k: int| 0 <= k < i ==> store.term(#[trigger] rest@[k]) == chain_init(ms[k]),
        decreases filters.len() - i,
    {
        let (a, b) = last_chain(store, identity, filters[i]);
        proof {
            assert(store.term(a) == chain_init(ms[i as int]));
        }
        rest.push(a);
        match common {
            None => {
                common = Some(b);
            },
            Some(c) => {
                if c != b {
                    proof {
                        store.lemma_same_term(c, b);
                    }
                    return None;
                }
            },
        }
        i += 1;
    }
    match common {
        Some(c) => {
            proof {
                store.lemma_same_term(c, identity);
            }
            if c == identity {
                None
            } else {
                Some((c, rest))
            }
        },
        None => None,
    }
}

/// Whether `f` joins the group that `first` opened: by their leading
/// filter, or by their last link.
fn joins_group(store: &mut FilterStore, f: Filter, first: Filter, by_head: bool) -> (r: bool)
    requires
        old(store).wf(),
        old(store).contains(f),
        old(store).contains(first),
    ensures
        final(store).wf(),
        final(store).extends(old(store)),
        r == joins(old(store).term(f), old(store).term(first), by_head),
{
    if by_head {
        let head = match store.get(f) {
            Op::Chain(a, _) => Some(*a),
            _ => None,
        };
        let first_head = match store.get(first) {
            Op::Chain(x, _) => Some(*x),
            _ => None,
        };
        match (head, first_head) {
            (Some(a), Some(x)) => {
                proof {
                    store.lemma_same_term(a, x);
                }
                a == x
            },
            _ => false,
        }
    } else {
        let identity = store.intern(Op::Identity);
        let (_, a) = last_chain(store, identity, f);
        let (_, x) = last_chain(store, identity, first);
        proof {
            store.lemma_same_term(a, x);
        }
        a == x
    }
}

/// The list cut into runs of neighbours that join one another.
fn group_neighbours(store: &mut FilterStore, filters: &Vec<Filter>, by_head: bool) -> (res: Vec<
    Vec<Filter>,
>)
    requires
        old(store).wf(),
        old(store).contains_all(filters@),
    ensures
        final(store).wf(),
        final(store).extends(old(store)),
        final(store).contains_groups(res@),
        final(store).group_terms(res@) == group_runs(old(store).terms(filters@), by_head),
{
    let ghost ms = old(store).terms(filters@);
    let mut res: Vec<Vec<Filter>> = Vec::new();
    let mut i: usize = 0;
    while i < filters.len()
        invariant
            i <= filters.len(),
            store.wf(),
            store.extends(old(store)),
            old(store).contains_all(filters@),
            ms == old(store).terms(filters@),
            store.contains_groups(res@),
            store.group_terms(res@) == group_runs(ms.take(i as int), by_head),
        decreases filters.len() - i,
    {
        let f = filters[i];
        let ghost init = group_runs(ms.take(i as int), by_head);
        assert(ms.take(i + 1).drop_last() =~= ms.take(i as int));
        let mut joined = false;
        if res.len() > 0 {
            let first = res[res.len() - 1][0];
            joined = joins_group(store, f, first, by_head);
        }
        let ghost groups_before = res@;
        if joined {
            let mut last = res.pop().unwrap();
            last.push(f);
            res.push(last);
            proof {
                let n = groups_before.len() - 1;
                assert(store.group_terms(res@) =~= init.update(n, init.last().push(ms[i as int])))
                    by {
                    assert forall|g: int| 0 <= g < res@.len() implies store.group_terms(res@)[g]
                        == init.update(n, init.last().push(ms[i as int]))[g] by {}
                }
            }
        } else {
            let mut fresh: Vec<Filter> = Vec::new();
            fresh.push(f);
            res.push(fresh);
            proof {
                assert(store.group_terms(res@) =~= init.push(seq![ms[i as int]])) by {
                    assert forall|g: int| 0 <= g < res@.len() implies store.group_terms(res@)[g]
                        == init.push(seq![ms[i as int]])[g] by {}
                }
            }
        }
        i += 1;
    }
    assert(ms.take(filters.len() as int) =~= ms);
    res
}

/// Neighbouring members grouped by their leading filter; if that leaves
/// every member alone, by their last link.
pub fn group(store: &mut FilterStore, filters: &Vec<Filter>) -> (res: Vec<Vec<Filter>>)
    requires
        old(store).wf(),
        old(store).contains_all(filters@),
    ensures
        final(store).wf(),
        final(store).extends(old(store)),
        final(store).contains_groups(res@),
        final(store).group_terms(res@) == group_term(old(store).terms(filters@)),
{
    let by_head = group_neighbours(store, filters, true);
    if by_head.len() != filters.len() {
        return by_head;
    }
    let ghost mid = *store;
    proof {
        mid.lemma_terms_stable(old(store), filters@);
    }
    let res = group_neighbours(store, filters, false);
    res
}

/// The members in path order. Members whose source paths, or whose
/// destination paths, are related by prefix keep their relative order; the
/// sort is a stable insertion sort.
pub fn prefix_sort(store: &FilterStore, filters: &Vec<Filter>) -> (sorted: Vec<Filter>)
    requires
        store.wf(),
        store.contains_all(filters@),
    ensures
        store.contains_all(sorted@),
        store.terms(sorted@) == prefix_sort_term(store.terms(filters@)),
        store.terms(sorted@).to_multiset() == store.terms(filters@).to_multiset(),
        path_ordered(store.terms(sorted@)),
{
    let ghost ms = store.terms(filters@);
    proof {
        lemma_prefix_sort(ms);
    }
    let mut sorted: Vec<Filter> = Vec::new();
    let mut i: usize = 0;
    while i < filters.len()
        invariant
            i <= filters.len(),
            store.wf(),
            store.contains_all(filters@),
            ms == store.terms(filters@),
            sorted.len() == i,
            store.contains_all(sorted@),
            store.terms(sorted@) == prefix_sort_term(ms.take(i as int)),
        decreases filters.len() - i,
    {
        let x = filters[i];
        let ghost base = sorted@;
        let ghost tb = store.terms(base);
        let ghost tx = store.term(x);
        assert(ms.take(i + 1).drop_last() =~= ms.take(i as int));
        sorted.push(x);
        let mut j: usize = i;
        assert(tb.take(j as int) =~= tb && tb.skip(j as int) =~= Seq::<Term>::empty());
        while j > 0 && precedes(store, x, sorted[j - 1])
            invariant
                j <= i,
                sorted.len() == i + 1,
                base.len() == i,
                store.wf(),
                store.contains(x),
                store.contains_all(base),
                store.contains_all(sorted@),
                tb == store.terms(base),
                tx == store.term(x),
                sorted@ == base.take(j as int).push(x) + base.skip(j as int),
                insert_sorted(tb, tx) == insert_sorted(tb.take(j as int), tx) + tb.skip(j as int),
            decreases j,
        {
            let prev = sorted[j - 1];
            sorted.set(j, prev);
            sorted.set(j - 1, x);
            proof {
                assert(tb.take(j as int).drop_last() =~= tb.take(j - 1));
                assert(insert_sorted(tb.take(j as int), tx) == insert_sorted(
                    tb.take(j - 1),
                    tx,
                ).push(tb[j - 1]));
                assert(insert_sorted(tb.take(j as int), tx) + tb.skip(j as int) =~= insert_sorted(
                    tb.take(j - 1),
                    tx,
                ) + tb.skip(j - 1));
            }
            j -= 1;
        }
        i += 1;
    }
    assert(ms.take(filters.len() as int) =~= ms);
    sorted
}

/// Every member flattened.
fn flatten_all(store: &mut FilterStore, items: &Vec<Filter>, Ghost(t): Ghost<Term>) -> (out: Vec<
    Filter,
>)
    requires
        old(store).wf(),
        old(store).contains_all(items@),
        forall|i: int|
            0 <= i < items@.len() ==> spread(old(store).term(#[trigger] items@[i])) < spread(t),
    ensures
        final(store).wf(),
        final(store).extends(old(store)),
        final(store).contains_all(out@),
        out@.len() == items@.len(),
        forall|i: int|
            0 <= i < out@.len() ==> final(store).term(#[trigger] out@[i]) == flatten_term(
                old(store).term(items@[i]),
            ),
    decreases spread(t), 0nat,
{
    let mut out: Vec<Filter> = Vec::new();
    let mut i: usize = 0;
    while i < items.len()
        invariant
            i <= items.len(),
            store.wf(),
            store.extends(old(store)),
            old(store).contains_all(items@),
            forall|k: int|
                0 <= k < items@.len() ==> spread(old(store).term(#[trigger] items@[k])) < spread(
                    t,
                ),
            store.contains_all(out@),
            out@.len() == i,
            forall|k: int|
                0 <= k < i ==> store.term(#[trigger] out@[k]) == flatten_term(
                    old(store).term(items@[k]),
                ),
        decreases items.len() - i,
    {
        let item = items[i];
        let flat = flatten(store, item);
        out.push(flat);
        i += 1;
    }
    out
}

/// Removes nesting from a filter: chains are distributed over compositions
/// and nested compositions are merged, in the filter and in its operands,
/// until nothing changes. The flat form suits the comparison of two
/// filters.
pub fn flatten(store: &mut FilterStore, filter: Filter) -> (r: Filter)
    requires
        old(store).wf(),
        old(store).contains(filter),
    ensures
        final(store).wf(),
        final(store).extends(old(store)),
        final(store).contains(r),
        final(store).term(r) == flatten_term(old(store).term(filter)),
    decreases spread(old(store).term(filter)), 1nat,
{
    let ghost t = store.term(filter);
    proof {
        lemma_flatten_operands(t);
        lemma_flatten_pass_shrinks(t);
    }
    let op = store.resolve(filter);
    let result = match op {
        Op::Compose(filters) => {
            let out = splice_members(store, &filters);
            proof {
                assert forall|i: int| 0 <= i < out@.len() implies spread(
                    store.term(#[trigger] out@[i]),
                ) < spread(t) by {
                    assert(store.terms(out@)[i] == store.term(out@[i]));
                }
            }
            let flat = flatten_all(store, &out, Ghost(t));
            let r = store.intern(Op::Compose(flat));
            proof {
                assert(store.term(r)->Compose_0 =~= flatten_pass(t)->Compose_0);
            }
            r
        },
        Op::Chain(af, bf) => {
            let left = compose_members(store, af);
            let right = compose_members(store, bf);
            match (left, right) {
                (_, Some(members)) => {
                    let out = chain_each(store, af, &members, true);
                    let r = store.intern(Op::Compose(out));
                    proof {
                        assert(store.term(r)->Compose_0 =~= flatten_pass(t)->Compose_0);
                    }
                    r
                },
                (Some(members), None) => {
                    let out = chain_each(store, bf, &members, false);
                    let r = store.intern(Op::Compose(out));
                    proof {
                        assert(store.term(r)->Compose_0 =~= flatten_pass(t)->Compose_0);
                    }
                    r
                },
                (None, None) => {
                    let a = flatten(store, af);
                    assert(old(store).contains(bf));
                    let b = flatten(store, bf);
                    store.intern(Op::Chain(a, b))
                },
            }
        },
        Op::Subtract(af, bf) => {
            let a = flatten(store, af);
            assert(old(store).contains(bf));
            let b = flatten(store, bf);
            store.intern(Op::Subtract(a, b))
        },
        _ => filter,
    };
    proof {
        store.lemma_same_term(result, filter);
    }
    if result == filter {
        result
    } else {
        flatten(store, result)
    }
}

/// The state that the rewriting functions share: the interning store and
/// one memoization table for each of `simplify`, `step` and `optimize`.
pub struct Optimizer {
    pub store: FilterStore,
    pub simplified: Memo,
    pub stepped: Memo,
    pub optimized: Memo,
}

impl Optimizer {
    /// The store is well formed, and every table entry holds what its
    /// function computes for the key.
    pub open spec fn wf(&self) -> bool {
        &&& self.store.wf()
        &&& forall|k: Filter| #[trigger]
            self.simplified@.contains_key(k) ==> {
                &&& self.store.contains(k)
                &&& self.store.contains(self.simplified@[k])
                &&& self.store.term(self.simplified@[k]) == simplify_term(self.store.term(k))
            }
        &&& forall|k: Filter| #[trigger]
            self.stepped@.contains_key(k) ==> {
                &&& self.store.contains(k)
                &&& self.store.contains(self.stepped@[k])
                &&& self.store.term(self.stepped@[k]) == step_term(self.store.term(k))
            }
        &&& forall|k: Filter| #[trigger]
            self.optimized@.contains_key(k) ==> {
                &&& self.store.contains(k)
                &&& self.store.contains(self.optimized@[k])
                &&& self.store.term(self.optimized@[k]) == optimize_term(self.store.term(k))
            }
    }

    /// The handle belongs to this optimizer's store.
    pub open spec fn contains(&self, f: Filter) -> bool {
        self.store.contains(f)
    }

    /// The filter expression that the handle denotes.
    pub open spec fn term(&self, f: Filter) -> Term {
        self.store.term(f)
    }

    /// Every handle of `prev` is a handle of `self` and denotes the same
    /// term, and every table entry of `prev` is an entry of `self`.
    pub open spec fn extends(&self, prev: &Optimizer) -> bool {
        &&& self.store.extends(&prev.store)
        &&& self.simplified.includes(&prev.simplified)
        &&& self.stepped.includes(&prev.stepped)
        &&& self.optimized.includes(&prev.optimized)
    }

    /// An optimizer with an empty store and empty tables: it holds no
    /// filter yet, and nothing has been simplified, stepped or optimized.
    pub fn new() -> (ctx: Optimizer)
        ensures
            ctx.wf(),
            ctx.store.nodes@.len() == 0,
            ctx.store.index@ == Map::<u64, Vec<usize>>::empty(),
            ctx.simplified@ == Map::<Filter, Filter>::empty(),
            ctx.stepped@ == Map::<Filter, Filter>::empty(),
            ctx.optimized@ == Map::<Filter, Filter>::empty(),
            forall|f: Filter| !ctx.contains(f),
    {
        Optimizer {
            store: FilterStore::new(),
            simplified: Memo::new(),
            stepped: Memo::new(),
            optimized: Memo::new(),
        }
    }

    /// The canonical handle for a content.
    pub fn intern(&mut self, op: Op) -> (f: Filter)
        requires
            old(self).wf(),
            old(self).store.holds(op@),
        ensures
            final(self).wf(),
            final(self).extends(old(self)),
            final(self).contains(f),
            final(self).store.shape()[f.id as int] == op@,
            final(self).term(f) == old(self).store.denote(op@),
    {
        self.store.intern(op)
    }

    /// A copy of the content of a node.
    pub fn resolve(&self, f: Filter) -> (op: Op)
        requires
            self.wf(),
            self.contains(f),
        ensures
            op@ == self.store.shape()[f.id as int],
            self.store.holds(op@),
            self.store.denote(op@) == self.term(f),
    {
        self.store.resolve(f)
    }
}

/// Every member simplified.
fn simplify_all(ctx: &mut Optimizer, items: &Vec<Filter>, Ghost(t): Ghost<Term>) -> (out: Vec<
    Filter,
>)
    requires
        old(ctx).wf(),
        old(ctx).store.contains_all(items@),
        forall|i: int|
            0 <= i < items@.len() ==> weight(old(ctx).term(#[trigger] items@[i])) < weight(t),
    ensures
        final(ctx).wf(),
        final(ctx).extends(old(ctx)),
        final(ctx).store.contains_all(out@),
        out@.len() == items@.len(),
        forall|i: int|
            0 <= i < out@.len() ==> final(ctx).term(#[trigger] out@[i]) == simplify_term(
                old(ctx).term(items@[i]),
            ),
    decreases weight(t), 0nat,
{
    let mut out: Vec<Filter> = Vec::new();
    let mut i: usize = 0;
    while i < items.len()
        invariant
            i <= items.len(),
            ctx.wf(),
            ctx.extends(old(ctx)),
            old(ctx).store.contains_all(items@),
            forall|k: int|
                0 <= k < items@.len() ==> weight(old(ctx).term(#[trigger] items@[k])) < weight(t),
            ctx.store.contains_all(out@),
            out@.len() == i,
            forall|k: int|
                0 <= k < i ==> ctx.term(#[trigger] out@[k]) == simplify_term(
                    old(ctx).term(items@[k]),
                ),
        decreases items.len() - i,
    {
        let item = items[i];
        let simple = simplify(ctx, item);
        out.push(simple);
        i += 1;
    }
    out
}

/// An equivalent filter with fewer nodes and a similar structure: nested
/// compositions are merged, chains lean to the left, and neighbouring
/// subdirectory or prefix filters are joined, in the filter and in its
/// operands, until nothing changes. Results are memoized.
pub fn simplify(ctx: &mut Optimizer, filter: Filter) -> (r: Filter)
    requires
        old(ctx).wf(),
        old(ctx).contains(filter),
    ensures
        final(ctx).wf(),
        final(ctx).extends(old(ctx)),
        final(ctx).contains(r),
        final(ctx).term(r) == simplify_term(old(ctx).term(filter)),
        final(ctx).simplified@.contains_key(filter) && final(ctx).simplified@[filter] == r,
    decreases weight(old(ctx).term(filter)), 1nat,
{
    match ctx.simplified.get(filter) {
        Some(f) => {
            return f;
        },
        None => {},
    }
    let ghost t = ctx.term(filter);
    proof {
        lemma_simplify_operands(t);
        lemma_simplify_pass_shrinks(t);
    }
    let op = ctx.store.resolve(filter);
    let result = match op {
        Op::Compose(filters) => {
            let out = splice_members(&ctx.store, &filters);
            proof {
                assert forall|i: int| 0 <= i < out@.len() implies weight(
                    ctx.term(#[trigger] out@[i]),
                ) < weight(t) by {
                    assert(ctx.store.terms(out@)[i] == ctx.term(out@[i]));
                }
            }
            let simple = simplify_all(ctx, &out, Ghost(t));
            let r = ctx.store.intern(Op::Compose(simple));
            proof {
                assert(ctx.term(r)->Compose_0 =~= simplify_pass(t)->Compose_0);
            }
            r
        },
        Op::Chain(a, b) => {
            let right_chain = chain_of(&ctx.store, b);
            let left_chain = chain_of(&ctx.store, a);
            let left_prefix = prefix_of(&ctx.store, a);
            let right_prefix = prefix_of(&ctx.store, b);
            let left_subdir = subdir_of(&ctx.store, a);
            let right_subdir = subdir_of(&ctx.store, b);
            match (right_chain, left_prefix, right_prefix, left_subdir, right_subdir, left_chain) {
                (Some((x, y)), _, _, _, _, _) => {
                    let inner = ctx.store.intern(Op::Chain(a, x));
                    ctx.store.intern(Op::Chain(inner, y))
                },
                (None, Some(x), Some(y), _, _, _) => ctx.store.intern(Op::Prefix(y.join(&x))),
                (None, _, _, Some(x), Some(y), _) => ctx.store.intern(Op::Subdir(x.join(&y))),
                (None, None, Some(p2), _, _, Some((x, y))) => {
                    match prefix_of(&ctx.store, y) {
                        Some(p1) => {
                            let sx = simplify(ctx, x);
                            let joined = ctx.store.intern(Op::Prefix(p2.join(&p1)));
                            ctx.store.intern(Op::Chain(sx, joined))
                        },
                        None => {
                            let sa = simplify(ctx, a);
                            assert(old(ctx).contains(b));
                            let sb = simplify(ctx, b);
                            ctx.store.intern(Op::Chain(sa, sb))
                        },
                    }
                },
                _ => {
                    let sa = simplify(ctx, a);
                    assert(old(ctx).contains(b));
                    let sb = simplify(ctx, b);
                    ctx.store.intern(Op::Chain(sa, sb))
                },
            }
        },
        Op::Subtract(a, b) => {
            let sa = simplify(ctx, a);
            assert(old(ctx).contains(b));
            let sb = simplify(ctx, b);
            ctx.store.intern(Op::Subtract(sa, sb))
        },
        _ => filter,
    };
    proof {
        ctx.store.lemma_same_term(result, filter);
    }
    let r = if result == filter {
        result
    } else {
        simplify(ctx, result)
    };
    ctx.simplified.insert(filter, r);
    r
}

/// Every member stepped.
fn step_all(ctx: &mut Optimizer, items: &Vec<Filter>, Ghost(t): Ghost<Term>) -> (out: Vec<Filter>)
    requires
        old(ctx).wf(),
        old(ctx).store.contains_all(items@),
        forall|i: int|
            0 <= i < items@.len() ==> weight(old(ctx).term(#[trigger] items@[i])) < weight(t),
    ensures
        final(ctx).wf(),
        final(ctx).extends(old(ctx)),
        final(ctx).store.contains_all(out@),
        out@.len() == items@.len(),
        forall|i: int|
            0 <= i < out@.len() ==> final(ctx).term(#[trigger] out@[i]) == step_term(
                old(ctx).term(items@[i]),
            ),
    decreases weight(t), 0nat,
{
    let mut out: Vec<Filter> = Vec::new();
    let mut i: usize = 0;
    while i < items.len()
        invariant
            i <= items.len(),
            ctx.wf(),
            ctx.extends(old(ctx)),
            old(ctx).store.contains_all(items@),
            forall|k: int|
                0 <= k < items@.len() ==> weight(old(ctx).term(#[trigger] items@[k])) < weight(t),
            ctx.store.contains_all(out@),
            out@.len() == i,
            forall|k: int|
                0 <= k < i ==> ctx.term(#[trigger] out@[k]) == step_term(old(ctx).term(items@[k])),
        decreases items.len() - i,
    {
        let item = items[i];
        let stepped = step(ctx, item);
        out.push(stepped);
        i += 1;
    }
    out
}

/// The step of a composition of two or more members: repeated members
/// and empty members are dropped; then a common leading filter is factored
/// out, else a common last link, else neighbours are grouped, else the
/// members are sorted by path and each is stepped.
fn step_compose(ctx: &mut Optimizer, filters: &Vec<Filter>, Ghost(t): Ghost<Term>) -> (r: Filter)
    requires
        old(ctx).wf(),
        old(ctx).store.contains_all(filters@),
        t == Term::Compose(old(ctx).store.terms(filters@)),
        filters@.len() >= 2,
    ensures
        final(ctx).wf(),
        final(ctx).extends(old(ctx)),
        final(ctx).contains(r),
        final(ctx).term(r) == step_term(t),
    decreases weight(t), 1nat,
{
    proof {
        lemma_step_operands(t);
    }
    let deduped = dedup_members(&ctx.store, filters);
    let empty = ctx.store.intern(Op::Empty);
    let ghost store1 = ctx.store;
    proof {
        store1.lemma_terms_stable(&old(ctx).store, deduped@);
    }
    let members = remove_all(&ctx.store, &deduped, empty);
    match common_pre(&ctx.store, &members) {
        Some((common, rest)) => {
            let inner = ctx.store.intern(Op::Compose(rest));
            return ctx.store.intern(Op::Chain(common, inner));
        },
        None => {},
    }
    match common_post(&mut ctx.store, &members) {
        Some((common, rest)) => {
            let inner = ctx.store.intern(Op::Compose(rest));
            return ctx.store.intern(Op::Chain(inner, common));
        },
        None => {},
    }
    let ghost store3 = ctx.store;
    proof {
        store3.lemma_terms_stable(&store1, members@);
    }
    let grouped = group(&mut ctx.store, &members);
    let ghost store4 = ctx.store;
    proof {
        store4.lemma_terms_stable(&store3, members@);
    }
    if grouped.len() != members.len() {
        let composed = compose_each(&mut ctx.store, grouped);
        let r = ctx.store.intern(Op::Compose(composed));
        proof {
            assert(ctx.term(r)->Compose_0 =~= step_term(t)->Compose_0);
        }
        r
    } else {
        let sorted = prefix_sort(&ctx.store, &members);
        proof {
            assert forall|i: int| 0 <= i < sorted@.len() implies weight(
                ctx.term(#[trigger] sorted@[i]),
            ) < weight(t) by {
                assert(ctx.store.terms(sorted@)[i] == ctx.term(sorted@[i]));
            }
        }
        let stepped = step_all(ctx, &sorted, Ghost(t));
        let r = ctx.store.intern(Op::Compose(stepped));
        proof {
            assert(ctx.term(r)->Compose_0 =~= step_term(t)->Compose_0);
        }
        r
    }
}

/// The step of a subtraction of `b` from `a`.
fn step_subtract(ctx: &mut Optimizer, a: Filter, b: Filter, Ghost(t): Ghost<Term>) -> (r: Filter)
    requires
        old(ctx).wf(),
        old(ctx).contains(a),
        old(ctx).contains(b),
        t == subtract(old(ctx).term(a), old(ctx).term(b)),
    ensures
        final(ctx).wf(),
        final(ctx).extends(old(ctx)),
        final(ctx).contains(r),
        final(ctx).term(r) == step_term(t),
    decreases weight(t), 1nat,
{
    let ghost ta = ctx.term(a);
    let ghost tb = ctx.term(b);
    proof {
        lemma_step_operands(t);
        ctx.store.lemma_same_term(a, b);
    }
    if a == b {
        return ctx.store.intern(Op::Empty);
    }
    if is_empty(&ctx.store, a) {
        return ctx.store.intern(Op::Empty);
    }
    if is_empty(&ctx.store, b) {
        return a;
    }
    match (chain_of(&ctx.store, a), chain_of(&ctx.store, b)) {
        (Some((a1, b1)), Some((c1, d1))) => {
            proof {
                ctx.store.lemma_same_term(a1, c1);
            }
            if a1 == c1 {
                let inner = ctx.store.intern(Op::Subtract(b1, d1));
                return ctx.store.intern(Op::Chain(a1, inner));
            }
        },
        _ => {},
    }
    let mut pair: Vec<Filter> = Vec::new();
    pair.push(a);
    pair.push(b);
    assert(ctx.store.terms(pair@) =~= seq![ta, tb]);
    match common_post(&mut ctx.store, &pair) {
        Some((common, rest)) => {
            let ghost store1 = ctx.store;
            assert(rest@.len() == 2) by {
                assert(store1.terms(rest@).len() == 2);
            }
            let inner = ctx.store.intern(Op::Subtract(rest[0], rest[1]));
            return ctx.store.intern(Op::Chain(inner, common));
        },
        None => {},
    }
    let ghost store2 = ctx.store;
    let left = compose_members(&ctx.store, a);
    let right = compose_members(&ctx.store, b);
    match (left, right) {
        (Some(av), Some(bv)) => {
            proof {
                store2.lemma_contains_term(av@, b);
                store2.lemma_contains_term(bv@, a);
            }
            if has_filter(&av, b) {
                let kept = remove_all(&ctx.store, &av, b);
                let c = ctx.store.intern(Op::Compose(kept));
                step(ctx, c)
            } else if has_filter(&bv, a) {
                ctx.store.intern(Op::Empty)
            } else {
                let kept_a = remove_members(&ctx.store, &av, &bv);
                let kept_b = remove_members(&ctx.store, &bv, &av);
                let ca = ctx.store.intern(Op::Compose(kept_a));
                let ghost store3 = ctx.store;
                proof {
                    store3.lemma_terms_stable(&store2, kept_b@);
                }
                let cb = ctx.store.intern(Op::Compose(kept_b));
                let sa = step(ctx, ca);
                let sb = step(ctx, cb);
                ctx.store.intern(Op::Subtract(sa, sb))
            }
        },
        (Some(av), None) => {
            proof {
                store2.lemma_contains_term(av@, b);
            }
            if has_filter(&av, b) {
                let kept = remove_all(&ctx.store, &av, b);
                let c = ctx.store.intern(Op::Compose(kept));
                step(ctx, c)
            } else {
                let sa = step(ctx, a);
                let sb = step(ctx, b);
                ctx.store.intern(Op::Subtract(sa, sb))
            }
        },
        (None, Some(bv)) => {
            proof {
                store2.lemma_contains_term(bv@, a);
            }
            if has_filter(&bv, a) {
                ctx.store.intern(Op::Empty)
            } else {
                let sa = step(ctx, a);
                let sb = step(ctx, b);
                ctx.store.intern(Op::Subtract(sa, sb))
            }
        },
        (None, None) => {
            let sa = step(ctx, a);
            let sb = step(ctx, b);
            ctx.store.intern(Op::Subtract(sa, sb))
        },
    }
}

/// Applies one layer of optimization rules to a filter; if no rule applies
/// the filter itself is returned. Results are memoized.
///
/// - A subdirectory or prefix filter with several path segments becomes a
///   chain of its first segment and the rest: first segment first for a
///   subdirectory, last for a prefix.
/// - An empty composition becomes the empty filter, a composition of one
///   member that member; a longer one is handled as `step_compose` says.
/// - A chain whose first operand is a chain leans to the right; an identity
///   operand is dropped; otherwise both operands are stepped.
/// - A subtraction is handled as `step_subtract` says.
pub fn step(ctx: &mut Optimizer, filter: Filter) -> (r: Filter)
    requires
        old(ctx).wf(),
        old(ctx).contains(filter),
    ensures
        final(ctx).wf(),
        final(ctx).extends(old(ctx)),
        final(ctx).contains(r),
        final(ctx).term(r) == step_term(old(ctx).term(filter)),
        final(ctx).stepped@.contains_key(filter) && final(ctx).stepped@[filter] == r,
    decreases weight(old(ctx).term(filter)), 2nat,
{
    match ctx.stepped.get(filter) {
        Some(f) => {
            return f;
        },
        None => {},
    }
    let ghost t = ctx.term(filter);
    let op = ctx.store.resolve(filter);
    let result = match op {
        Op::Subdir(path) => {
            if path.len() > 1 {
                let head = ctx.store.intern(Op::Subdir(path.head()));
                let tail = ctx.store.intern(Op::Subdir(path.tail()));
                ctx.store.intern(Op::Chain(head, tail))
            } else {
                filter
            }
        },
        Op::Prefix(path) => {
            if path.len() > 1 {
                let tail = ctx.store.intern(Op::Prefix(path.tail()));
                let head = ctx.store.intern(Op::Prefix(path.head()));
                ctx.store.intern(Op::Chain(tail, head))
            } else {
                filter
            }
        },
        Op::Compose(filters) => {
            if filters.len() == 0 {
                ctx.store.intern(Op::Empty)
            } else if filters.len() == 1 {
                filters[0]
            } else {
                step_compose(ctx, &filters, Ghost(t))
            }
        },
        Op::Chain(a, b) => {
            match chain_of(&ctx.store, a) {
                Some((x, y)) => {
                    let inner = ctx.store.intern(Op::Chain(y, b));
                    ctx.store.intern(Op::Chain(x, inner))
                },
                None => {
                    if is_identity(&ctx.store, a) {
                        b
                    } else if is_identity(&ctx.store, b) {
                        a
                    } else {
                        let sa = step(ctx, a);
                        assert(old(ctx).contains(b));
                        let sb = step(ctx, b);
                        ctx.store.intern(Op::Chain(sa, sb))
                    }
                },
            }
        },
        Op::Subtract(a, b) => step_subtract(ctx, a, b, Ghost(t)),
        _ => filter,
    };
    ctx.stepped.insert(filter, result);
    result
}

/// Applies optimization steps to a filter until no rule applies any more,
/// or `STEP_LIMIT` steps were taken; then the last form is returned as it
/// is.
pub fn iterate(ctx: &mut Optimizer, filter: Filter) -> (r: Filter)
    requires
        old(ctx).wf(),
        old(ctx).contains(filter),
    ensures
        final(ctx).wf(),
        final(ctx).extends(old(ctx)),
        final(ctx).contains(r),
        final(ctx).term(r) == iterate_term(old(ctx).term(filter)),
{
    let ghost start = ctx.term(filter);
    let mut current = filter;
    let mut i: usize = 0;
    while i < STEP_LIMIT
        invariant
            i <= STEP_LIMIT,
            ctx.wf(),
            ctx.extends(old(ctx)),
            ctx.contains(current),
            start == old(ctx).term(filter),
            iterate_term(start) == iterate_steps(ctx.term(current), (STEP_LIMIT - i) as nat),
        decreases STEP_LIMIT - i,
    {
        let ghost mid = ctx.store;
        let optimized = step(ctx, current);
        proof {
            assert(iterate_steps(mid.term(current), (STEP_LIMIT - i) as nat) == if step_term(
                mid.term(current),
            ) == mid.term(current) {
                mid.term(current)
            } else {
                iterate_steps(step_term(mid.term(current)), (STEP_LIMIT - i - 1) as nat)
            });
        }
        if current == optimized {
            return current;
        }
        current = optimized;
        i += 1;
    }
    current
}

/// Whether no step rule changes the filter. After `iterate`, this tells
/// whether the steps came to rest or the step limit cut them short.
pub fn converged(ctx: &mut Optimizer, filter: Filter) -> (r: bool)
    requires
        old(ctx).wf(),
        old(ctx).contains(filter),
    ensures
        final(ctx).wf(),
        final(ctx).extends(old(ctx)),
        r == (step_term(old(ctx).term(filter)) == old(ctx).term(filter)),
{
    let next = step(ctx, filter);
    proof {
        ctx.store.lemma_same_term(next, filter);
    }
    next == filter
}

/// An alternative representation of a filter that suits fast evaluation
/// and reuse of cached results: the flat form of the filter, then rounds of
/// simplifying and iterating until simplifying the iterated form gives what
/// simplifying gave before, or `ROUND_LIMIT` rounds were taken again; the
/// result is the last simplified form, iterated once more. Results are
/// memoized.
pub fn optimize(ctx: &mut Optimizer, filter: Filter) -> (r: Filter)
    requires
        old(ctx).wf(),
        old(ctx).contains(filter),
    ensures
        final(ctx).wf(),
        final(ctx).extends(old(ctx)),
        final(ctx).contains(r),
        final(ctx).term(r) == optimize_term(old(ctx).term(filter)),
        final(ctx).optimized@.contains_key(filter) && final(ctx).optimized@[filter] == r,
{
    match ctx.optimized.get(filter) {
        Some(f) => {
            return f;
        },
        None => {},
    }
    let ghost start = ctx.term(filter);
    let mut current = flatten(&mut ctx.store, filter);
    let mut rounds: usize = ROUND_LIMIT;
    loop
        invariant
            rounds <= ROUND_LIMIT,
            ctx.wf(),
            ctx.extends(old(ctx)),
            old(ctx).contains(filter),
            start == old(ctx).term(filter),
            ctx.contains(current),
            optimize_term(start) == optimize_rounds(ctx.term(current), rounds as nat),
        decreases rounds,
    {
        let ghost g = ctx.term(current);
        let pretty = simplify(ctx, current);
        let optimized = iterate(ctx, current);
        let next = simplify(ctx, optimized);
        proof {
            ctx.store.lemma_same_term(next, pretty);
            assert(optimize_rounds(g, rounds as nat) == if ctx.term(next) == ctx.term(pretty)
                || rounds == 0 {
                iterate_term(ctx.term(next))
            } else {
                optimize_rounds(ctx.term(next), (rounds - 1) as nat)
            });
        }
        current = next;
        if current == pretty || rounds == 0 {
            let result = iterate(ctx, current);
            proof {
                if ctx.optimized@.contains_key(filter) {
                    ctx.store.lemma_same_term(ctx.optimized@[filter], result);
                }
            }
            ctx.optimized.insert(filter, result);
            return result;
        }
        rounds -= 1;
    }
}

} // verus!
