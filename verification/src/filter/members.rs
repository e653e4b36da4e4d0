//! Operations on single handles and on lists of handles that the rewriting
//! functions are built from.

use crate::filter::laws::{lemma_dedup_distinct, lemma_dedup_members};
use crate::filter::rules::{dedup, difference, splice, without};
use crate::filter::store::{copy_filters, has_filter, Filter, FilterStore, Op};
use crate::filter::term::{chain, dst_path, sorts_before, src_path, Term};
use crate::path::Path;
use vstd::prelude::*;

verus! {

/// Whether the filter is the identity.
pub fn is_identity(store: &FilterStore, filter: Filter) -> (r: bool)
    requires
        store.wf(),
        store.contains(filter),
    ensures
        r == (store.term(filter) is Identity),
{
    match store.get(filter) {
        Op::Identity => true,
        _ => false,
    }
}

/// Whether the filter is the empty filter.
pub fn is_empty(store: &FilterStore, filter: Filter) -> (r: bool)
    requires
        store.wf(),
        store.contains(filter),
    ensures
        r == (store.term(filter) is Empty),
{
    match store.get(filter) {
        Op::Empty => true,
        _ => false,
    }
}

/// The operands of a filter that is a chain.
pub fn chain_of(store: &FilterStore, filter: Filter) -> (r: Option<(Filter, Filter)>)
    requires
        store.wf(),
        store.contains(filter),
    ensures
        match r {
            Some((a, b)) => {
                &&& store.contains(a)
                &&& store.contains(b)
                &&& a.id < filter.id
                &&& b.id < filter.id
                &&& store.term(filter) == chain(store.term(a), store.term(b))
            },
            None => !(store.term(filter) is Chain),
        },
{
    match store.get(filter) {
        Op::Chain(a, b) => Some((*a, *b)),
        _ => None,
    }
}

/// The members of a filter that is a composition.
pub fn compose_members(store: &FilterStore, filter: Filter) -> (r: Option<Vec<Filter>>)
    requires
        store.wf(),
        store.contains(filter),
    ensures
        match r {
            Some(members) => store.contains_all(members@) && store.term(filter) == Term::Compose(
                store.terms(members@),
            ),
            None => !(store.term(filter) is Compose),
        },
{
    match store.get(filter) {
        Op::Compose(members) => Some(copy_filters(members)),
        _ => None,
    }
}

/// The path of a filter that extracts a subdirectory.
pub fn subdir_of(store: &FilterStore, filter: Filter) -> (r: Option<Path>)
    requires
        store.wf(),
        store.contains(filter),
    ensures
        match r {
            Some(p) => store.term(filter) == Term::Subdir(p@),
            None => !(store.term(filter) is Subdir),
        },
{
    match store.get(filter) {
        Op::Subdir(p) => Some(p.copy()),
        _ => None,
    }
}

/// The path of a filter that adds a prefix.
pub fn prefix_of(store: &FilterStore, filter: Filter) -> (r: Option<Path>)
    requires
        store.wf(),
        store.contains(filter),
    ensures
        match r {
            Some(p) => store.term(filter) == Term::Prefix(p@),
            None => !(store.term(filter) is Prefix),
        },
{
    match store.get(filter) {
        Op::Prefix(p) => Some(p.copy()),
        _ => None,
    }
}

/// The path that a filter reads from.
pub fn src_path_of(store: &FilterStore, filter: Filter) -> (p: Path)
    requires
        store.wf(),
        store.contains(filter),
    ensures
        p@ == src_path(store.term(filter)),
    decreases filter.id,
{
    match store.get(filter) {
        Op::Subdir(path) => path.copy(),
        Op::Chain(a, b) => {
            let head = src_path_of(store, *a);
            let tail = src_path_of(store, *b);
            head.join(&tail)
        },
        _ => Path::new(),
    }
}

/// The path that a filter writes to.
pub fn dst_path_of(store: &FilterStore, filter: Filter) -> (p: Path)
    requires
        store.wf(),
        store.contains(filter),
    ensures
        p@ == dst_path(store.term(filter)),
    decreases filter.id,
{
    match store.get(filter) {
        Op::Prefix(path) => path.copy(),
        Op::Chain(a, b) => {
            let head = dst_path_of(store, *b);
            let tail = dst_path_of(store, *a);
            head.join(&tail)
        },
        _ => Path::new(),
    }
}

/// Whether `x` must stand before `y` in path order.
pub fn precedes(store: &FilterStore, x: Filter, y: Filter) -> (r: bool)
    requires
        store.wf(),
        store.contains(x),
        store.contains(y),
    ensures
        r == sorts_before(store.term(x), store.term(y)),
{
    let src_x = src_path_of(store, x);
    let src_y = src_path_of(store, y);
    if src_x.starts_with(&src_y) || src_y.starts_with(&src_x) {
        return false;
    }
    let dst_x = dst_path_of(store, x);
    let dst_y = dst_path_of(store, y);
    if dst_x.starts_with(&dst_y) || dst_y.starts_with(&dst_x) {
        return false;
    }
    if src_x.less(&src_y) {
        true
    } else if src_x.same(&src_y) {
        dst_x.less(&dst_y)
    } else {
        false
    }
}

/// The members with one level of nesting removed: a member that is itself
/// a composition is replaced by its members.
pub fn splice_members(store: &FilterStore, filters: &Vec<Filter>) -> (out: Vec<Filter>)
    requires
        store.wf(),
        store.contains_all(filters@),
    ensures
        store.contains_all(out@),
        store.terms(out@) == splice(store.terms(filters@)),
{
    let ghost ms = store.terms(filters@);
    let mut out: Vec<Filter> = Vec::new();
    let mut i: usize = 0;
    while i < filters.len()
        invariant
            i <= filters.len(),
            store.wf(),
            store.contains_all(filters@),
            ms == store.terms(filters@),
            store.contains_all(out@),
            store.terms(out@) == splice(ms.take(i as int)),
        decreases filters.len() - i,
    {
        let f = filters[i];
        let ghost base = out@;
        assert(ms.take(i + 1).drop_last() =~= ms.take(i as int));
        match store.get(f) {
            Op::Compose(members) => {
                let mut k: usize = 0;
                while k < members.len()
                    invariant
                        k <= members.len(),
                        store.contains_all(members@),
                        store.contains_all(out@),
                        out@ == base + members@.take(k as int),
                    decreases members.len() - k,
                {
                    out.push(members[k]);
                    k += 1;
                }
            },
            _ => {
                out.push(f);
            },
        }
        i += 1;
    }
    assert(ms.take(filters.len() as int) =~= ms);
    out
}

/// The list without repeated members: the first occurrence of each stays.
pub fn dedup_members(store: &FilterStore, filters: &Vec<Filter>) -> (out: Vec<Filter>)
    requires
        store.wf(),
        store.contains_all(filters@),
    ensures
        store.contains_all(out@),
        store.terms(out@) == dedup(store.terms(filters@)),
        store.terms(out@).no_duplicates(),
        forall|x: Term| store.terms(out@).contains(x) <==> store.terms(filters@).contains(x),
{
    let ghost ms = store.terms(filters@);
    proof {
        lemma_dedup_distinct(ms);
        assert forall|x: Term| dedup(ms).contains(x) <==> ms.contains(x) by {
            lemma_dedup_members(ms, x);
        }
    }
    let mut out: Vec<Filter> = Vec::new();
    let mut i: usize = 0;
    assert(ms.take(0) =~= Seq::<Term>::empty());
    while i < filters.len()
        invariant
            i <= filters.len(),
            store.wf(),
            store.contains_all(filters@),
            ms == store.terms(filters@),
            store.contains_all(out@),
            store.terms(out@) == dedup(ms.take(i as int)),
        decreases filters.len() - i,
    {
        let f = filters[i];
        assert(ms.take(i + 1).drop_last() =~= ms.take(i as int));
        assert(ms.take(i + 1).last() == store.term(f));
        proof {
            store.lemma_contains_term(out@, f);
        }
        if !has_filter(&out, f) {
            let ghost base = out@;
            out.push(f);
            assert(store.terms(out@) =~= store.terms(base).push(store.term(f)));
        }
        i += 1;
    }
    assert(ms.take(filters.len() as int) =~= ms);
    out
}

/// The list without the members equal to `x`.
pub fn remove_all(store: &FilterStore, filters: &Vec<Filter>, x: Filter) -> (out: Vec<Filter>)
    requires
        store.wf(),
        store.contains_all(filters@),
        store.contains(x),
    ensures
        store.contains_all(out@),
        store.terms(out@) == without(store.terms(filters@), store.term(x)),
{
    let ghost ms = store.terms(filters@);
    let mut out: Vec<Filter> = Vec::new();
    let mut i: usize = 0;
    while i < filters.len()
        invariant
            i <= filters.len(),
            store.wf(),
            store.contains_all(filters@),
            store.contains(x),
            ms == store.terms(filters@),
            store.contains_all(out@),
            store.terms(out@) == without(ms.take(i as int), store.term(x)),
        decreases filters.len() - i,
    {
        let f = filters[i];
        assert(ms.take(i + 1).drop_last() =~= ms.take(i as int));
        proof {
            store.lemma_same_term(f, x);
        }
        if f != x {
            out.push(f);
        }
        i += 1;
    }
    assert(ms.take(filters.len() as int) =~= ms);
    out
}

/// The members of `filters` that do not occur in `others`.
pub fn remove_members(store: &FilterStore, filters: &Vec<Filter>, others: &Vec<Filter>) -> (out:
    Vec<Filter>)
    requires
        store.wf(),
        store.contains_all(filters@),
        store.contains_all(others@),
    ensures
        store.contains_all(out@),
        store.terms(out@) == difference(store.terms(filters@), store.terms(others@)),
{
    let ghost ms = store.terms(filters@);
    let ghost os = store.terms(others@);
    let mut out: Vec<Filter> = Vec::new();
    let mut i: usize = 0;
    while i < filters.len()
        invariant
            i <= filters.len(),
            store.wf(),
            store.contains_all(filters@),
            store.contains_all(others@),
            ms == store.terms(filters@),
            os == store.terms(others@),
            store.contains_all(out@),
            store.terms(out@) == difference(ms.take(i as int), os),
        decreases filters.len() - i,
    {
        let f = filters[i];
        assert(ms.take(i + 1).drop_last() =~= ms.take(i as int));
        proof {
            store.lemma_contains_term(others@, f);
        }
        if !has_filter(others, f) {
            out.push(f);
        }
        i += 1;
    }
    assert(ms.take(filters.len() as int) =~= ms);
    out
}

/// One chain per member: `fixed` before it, or after it.
pub fn chain_each(store: &mut FilterStore, fixed: Filter, members: &Vec<Filter>, fixed_first: bool) -> (out:
    Vec<Filter>)
    requires
        old(store).wf(),
        old(store).contains(fixed),
        old(store).contains_all(members@),
    ensures
        final(store).wf(),
        final(store).extends(old(store)),
        final(store).contains_all(out@),
        out@.len() == members@.len(),
        forall|i: int|
            0 <= i < out@.len() ==> final(store).term(#[trigger] out@[i]) == (if fixed_first {
                chain(old(store).term(fixed), old(store).term(members@[i]))
            } else {
                chain(old(store).term(members@[i]), old(store).term(fixed))
            }),
{
    let mut out: Vec<Filter> = Vec::new();
    let mut i: usize = 0;
    while i < members.len()
        invariant
            i <= members.len(),
            store.wf(),
            store.extends(old(store)),
            old(store).contains(fixed),
            old(store).contains_all(members@),
            store.contains_all(out@),
            out@.len() == i,
            forall|k: int|
                0 <= k < i ==> store.term(#[trigger] out@[k]) == (if fixed_first {
                    chain(old(store).term(fixed), old(store).term(members@[k]))
                } else {
                    chain(old(store).term(members@[k]), old(store).term(fixed))
                }),
        decreases members.len() - i,
    {
        let m = members[i];
        let c = if fixed_first {
            store.intern(Op::Chain(fixed, m))
        } else {
            store.intern(Op::Chain(m, fixed))
        };
        out.push(c);
        i += 1;
    }
    out
}

/// One composition per group.
pub fn compose_each(store: &mut FilterStore, groups: Vec<Vec<Filter>>) -> (out: Vec<Filter>)
    requires
        old(store).wf(),
        old(store).contains_groups(groups@),
    ensures
        final(store).wf(),
        final(store).extends(old(store)),
        final(store).contains_all(out@),
        out@.len() == groups@.len(),
        forall|g: int|
            0 <= g < out@.len() ==> final(store).term(#[trigger] out@[g]) == Term::Compose(
                old(store).terms(groups@[g]@),
            ),
{
    let mut out: Vec<Filter> = Vec::new();
    let mut i: usize = 0;
    while i < groups.len()
        invariant
            i <= groups.len(),
            store.wf(),
            store.extends(old(store)),
            old(store).contains_groups(groups@),
            store.contains_all(out@),
            out@.len() == i,
            forall|g: int|
                0 <= g < i ==> store.term(#[trigger] out@[g]) == Term::Compose(
                    old(store).terms(groups@[g]@),
                ),
        decreases groups.len() - i,
    {
        let members = copy_filters(&groups[i]);
        let ghost mid = *store;
        proof {
            mid.lemma_terms_stable(old(store), members@);
        }
        let c = store.intern(Op::Compose(members));
        out.push(c);
        i += 1;
    }
    out
}

} // verus!
