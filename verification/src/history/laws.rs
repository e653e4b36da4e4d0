//! Laws of the traversal machines: what a walk or a search asks for, and
//! how it ends, when its driver answers in a given way.

use crate::history::ids::{zero_oid, Oid};
use crate::history::origin::{search_next, SearchModel, SearchPhase};
use crate::history::walk::{idle, requests, run, walk_next, Event, Phase, Request, WalkModel};
use vstd::prelude::*;

verus! {

/// Taking one more answer is one more move.
pub proof fn lemma_run_push(w: WalkModel, events: Seq<Event>, e: Event)
    ensures
        run(w, events.push(e)) == walk_next(run(w, events), e).0,
        requests(w, events.push(e)) == requests(w, events).push(walk_next(run(w, events), e).1),
{
    assert(events.push(e).drop_last() =~= events);
}

/// Taking two lists of answers one after the other is taking their
/// concatenation.
pub proof fn lemma_run_concat(w: WalkModel, a: Seq<Event>, b: Seq<Event>)
    ensures
        run(w, a + b) == run(run(w, a), b),
        requests(w, a + b) == requests(w, a) + requests(run(w, a), b),
    decreases b.len(),
{
    if b.len() == 0 {
    } else {
        lemma_run_concat(w, a, b.drop_last());
        assert((a + b).drop_last() =~= a + b.drop_last());
    }
}

/// A walk makes one request for each answer.
pub proof fn lemma_requests_len(w: WalkModel, events: Seq<Event>)
    ensures
        requests(w, events).len() == events.len(),
    decreases events.len(),
{
    if events.len() > 0 {
        lemma_requests_len(w, events.drop_last());
    }
}

/// A walk that has ended stays as it is, and answers every further event
/// with its result.
pub proof fn lemma_done_is_final(w: WalkModel, id: Oid, events: Seq<Event>)
    requires
        w.phase == Phase::Done(id),
    ensures
        run(w, events) == w,
        requests(w, events).len() == events.len(),
        forall|i: int| 0 <= i < events.len() ==> requests(w, events)[i] == Request::Done(id),
    decreases events.len(),
{
    if events.len() > 0 {
        lemma_done_is_final(w, id, events.drop_last());
    }
}

/// A start that does not exist: the walk asks for the start, and ends with
/// the zero identifier.
pub proof fn lemma_walk_absent(input: Oid)
    ensures
        run(idle(input), seq![Event::Begin, Event::Found(false)]).phase == Phase::Done(zero_oid()),
        requests(idle(input), seq![Event::Begin, Event::Found(false)]) == seq![
            Request::FindCommit(input),
            Request::Done(zero_oid()),
        ],
{
    let w0 = idle(input);
    let e0 = Seq::<Event>::empty();
    lemma_run_push(w0, e0, Event::Begin);
    lemma_run_push(w0, e0.push(Event::Begin), Event::Found(false));
    assert(seq![Event::Begin, Event::Found(false)] =~= e0.push(Event::Begin).push(
        Event::Found(false),
    ));
    assert(requests(w0, seq![Event::Begin, Event::Found(false)]) =~= seq![
        Request::FindCommit(input),
        Request::Done(zero_oid()),
    ]);
}

/// Walk memoization. When the cache holds a result for the start, the walk
/// ends with that result after asking for the start and for its cache
/// entry, and never asks for the filter to be applied, whatever answers
/// follow.
pub proof fn lemma_walk_memoized(input: Oid, cached: Oid, more: Seq<Event>)
    ensures
        ({
            let events = seq![Event::Begin, Event::Found(true), Event::Cached(Some(cached))] + more;
            &&& run(idle(input), events).phase == Phase::Done(cached)
            &&& requests(idle(input), events).len() == events.len()
            &&& forall|i: int|
                0 <= i < events.len() ==> !(#[trigger] requests(idle(input), events)[i] is Apply)
        }),
{
    let w0 = idle(input);
    let e0 = Seq::<Event>::empty();
    let head = seq![Event::Begin, Event::Found(true), Event::Cached(Some(cached))];
    lemma_run_push(w0, e0, Event::Begin);
    lemma_run_push(w0, e0.push(Event::Begin), Event::Found(true));
    lemma_run_push(
        w0,
        e0.push(Event::Begin).push(Event::Found(true)),
        Event::Cached(Some(cached)),
    );
    assert(head =~= e0.push(Event::Begin).push(Event::Found(true)).push(
        Event::Cached(Some(cached)),
    ));
    let w3 = run(w0, head);
    assert(requests(w0, head) =~= seq![
        Request::FindCommit(input),
        Request::CacheGet(input),
        Request::Done(cached),
    ]);
    lemma_run_concat(w0, head, more);
    lemma_done_is_final(w3, cached, more);
}

/// The answers of an enumeration in which the cache holds none of the
/// nodes `cs`: each node, then a miss.
pub open spec fn misses(cs: Seq<Oid>) -> Seq<Event>
    decreases cs.len(),
{
    if cs.len() == 0 {
        Seq::empty()
    } else {
        misses(cs.drop_last()).push(Event::Ancestor(Some(cs.last()))).push(Event::Cached(None))
    }
}

/// What a walk asks while it checks the nodes `cs`: the cache entry of
/// each, then the next node.
pub open spec fn lookups(cs: Seq<Oid>) -> Seq<Request>
    decreases cs.len(),
{
    if cs.len() == 0 {
        Seq::empty()
    } else {
        lookups(cs.drop_last()).push(Request::CacheGet(cs.last())).push(Request::Next)
    }
}

/// A counter raised `k` times.
pub open spec fn raise(n: usize, k: nat) -> usize {
    if n + k <= usize::MAX {
        (n + k) as usize
    } else {
        usize::MAX
    }
}

/// Frontier detection, misses. While the cache misses, the search for the
/// known frontier asks for each enumerated node in turn, counts it, and
/// leaves the known set as it is.
pub proof fn lemma_scan_misses(w: WalkModel, cs: Seq<Oid>)
    requires
        w.phase == Phase::Scanning,
    ensures
        run(w, misses(cs)) == (WalkModel { fresh: raise(w.fresh, cs.len()), ..w }),
        requests(w, misses(cs)) == lookups(cs),
    decreases cs.len(),
{
    if cs.len() > 0 {
        let init = cs.drop_last();
        lemma_scan_misses(w, init);
        let ev1 = misses(init).push(Event::Ancestor(Some(cs.last())));
        lemma_run_push(w, misses(init), Event::Ancestor(Some(cs.last())));
        lemma_run_push(w, ev1, Event::Cached(None));
    }
}

/// Frontier detection, hit. The first enumerated node that the cache
/// holds joins the known set, and the enumeration starts again without
/// the known nodes.
pub proof fn lemma_scan_hit(w: WalkModel, cs: Seq<Oid>, id: Oid, cached: Oid)
    requires
        w.phase == Phase::Scanning,
    ensures
        ({
            let events = misses(cs).push(Event::Ancestor(Some(id))).push(
                Event::Cached(Some(cached)),
            );
            &&& run(w, events) == (WalkModel { known: w.known.push(id), fresh: 0, ..w })
            &&& requests(w, events) == lookups(cs).push(Request::CacheGet(id)).push(
                Request::Enumerate { oldest_first: false, hide_known: true },
            )
        }),
{
    lemma_scan_misses(w, cs);
    lemma_run_push(w, misses(cs), Event::Ancestor(Some(id)));
    lemma_run_push(
        w,
        misses(cs).push(Event::Ancestor(Some(id))),
        Event::Cached(Some(cached)),
    );
}

/// Frontier detection, end. An enumeration that runs out without a hit
/// completes the frontier: the known set stands, the count of new nodes is
/// the number enumerated, and the walk asks for the enumeration, oldest
/// first, of what lies outside the known set.
pub proof fn lemma_scan_complete(w: WalkModel, cs: Seq<Oid>)
    requires
        w.phase == Phase::Scanning,
    ensures
        ({
            let events = misses(cs).push(Event::Ancestor(None));
            &&& run(w, events) == (WalkModel {
                phase: Phase::Filtering,
                fresh: raise(w.fresh, cs.len()),
                filtered: 0,
                ..w
            })
            &&& requests(w, events) == lookups(cs).push(
                Request::Enumerate { oldest_first: true, hide_known: true },
            )
        }),
{
    lemma_scan_misses(w, cs);
    lemma_run_push(w, misses(cs), Event::Ancestor(None));
}

/// One enumeration that ends at a cached node: the nodes before it, which
/// the cache does not hold, the node itself, and what the cache holds for
/// it.
pub struct Pass {
    pub misses: Seq<Oid>,
    pub hit: Oid,
    pub cached: Oid,
}

/// The answers of enumerations that each end at a cached node.
pub open spec fn restarts(passes: Seq<Pass>) -> Seq<Event>
    decreases passes.len(),
{
    if passes.len() == 0 {
        Seq::empty()
    } else {
        restarts(passes.drop_last()) + misses(passes.last().misses).push(
            Event::Ancestor(Some(passes.last().hit)),
        ).push(Event::Cached(Some(passes.last().cached)))
    }
}

/// The cached nodes at which the enumerations ended, in turn.
pub open spec fn hits(passes: Seq<Pass>) -> Seq<Oid> {
    passes.map_values(|p: Pass| p.hit)
}

/// Frontier detection, every restart. After enumerations that each ended
/// at a cached node, the known set has grown by those nodes, in turn, and
/// the search stands at the start of a new enumeration.
pub proof fn lemma_restarts(w: WalkModel, passes: Seq<Pass>)
    requires
        w.phase == Phase::Scanning,
    ensures
        run(w, restarts(passes)) == (WalkModel {
            known: w.known + hits(passes),
            fresh: if passes.len() == 0 {
                w.fresh
            } else {
                0
            },
            ..w
        }),
    decreases passes.len(),
{
    if passes.len() > 0 {
        let init = passes.drop_last();
        let last = passes.last();
        lemma_restarts(w, init);
        let mid = run(w, restarts(init));
        let tail = misses(last.misses).push(Event::Ancestor(Some(last.hit))).push(
            Event::Cached(Some(last.cached)),
        );
        lemma_run_concat(w, restarts(init), tail);
        lemma_scan_hit(mid, last.misses, last.hit, last.cached);
        assert(hits(passes) =~= hits(init).push(last.hit));
    }
}

/// Frontier detection, as a whole. Enumerations that each end at a cached
/// node, then one in which the cache holds none of the nodes `fresh`: the
/// known set is the cached nodes found, the count of new nodes is the
/// number of nodes of the last enumeration, and filtering begins.
pub proof fn lemma_find_known(w: WalkModel, passes: Seq<Pass>, fresh: Seq<Oid>)
    requires
        w.phase == Phase::Scanning,
        w.fresh == 0,
    ensures
        run(w, restarts(passes) + misses(fresh).push(Event::Ancestor(None))) == (WalkModel {
            phase: Phase::Filtering,
            known: w.known + hits(passes),
            fresh: raise(0, fresh.len()),
            filtered: 0,
            ..w
        }),
{
    lemma_restarts(w, passes);
    let mid = run(w, restarts(passes));
    lemma_run_concat(w, restarts(passes), misses(fresh).push(Event::Ancestor(None)));
    lemma_scan_complete(mid, fresh);
}

/// A walk of a start that exists and is not cached, from its first
/// request to its result: it finds the known frontier, has the filter
/// applied to the nodes `todo` outside it, oldest first, then to the start
/// itself, and ends with the result of that.
pub proof fn lemma_walk_whole(
    input: Oid,
    passes: Seq<Pass>,
    fresh: Seq<Oid>,
    todo: Seq<Oid>,
    results: Seq<Oid>,
    result: Oid,
)
    requires
        todo.len() == results.len(),
    ensures
        ({
            let events = seq![Event::Begin, Event::Found(true), Event::Cached(None)] + (restarts(
                passes,
            ) + misses(fresh).push(Event::Ancestor(None))) + applications(todo, results).push(
                Event::Ancestor(None),
            ).push(Event::Applied(result));
            let end = run(idle(input), events);
            &&& end.phase == Phase::Done(result)
            &&& end.known == hits(passes)
            &&& end.fresh == raise(0, fresh.len())
            &&& end.filtered == raise(0, todo.len())
        }),
{
    let w0 = idle(input);
    let e0 = Seq::<Event>::empty();
    let head = seq![Event::Begin, Event::Found(true), Event::Cached(None)];
    lemma_run_push(w0, e0.push(Event::Begin), Event::Found(true));
    lemma_run_push(w0, e0.push(Event::Begin).push(Event::Found(true)), Event::Cached(None));
    assert(head =~= e0.push(Event::Begin).push(Event::Found(true)).push(Event::Cached(None)));
    let w1 = run(w0, head);
    let scanning = restarts(passes) + misses(fresh).push(Event::Ancestor(None));
    lemma_find_known(w1, passes, fresh);
    lemma_run_concat(w0, head, scanning);
    let w2 = run(w0, head + scanning);
    let filtering = applications(todo, results).push(Event::Ancestor(None)).push(
        Event::Applied(result),
    );
    lemma_filter_each(w2, todo, results);
    lemma_run_push(w2, applications(todo, results), Event::Ancestor(None));
    lemma_run_push(
        w2,
        applications(todo, results).push(Event::Ancestor(None)),
        Event::Applied(result),
    );
    lemma_run_concat(w0, head + scanning, filtering);
}

/// The answers of an enumeration in which the filter is applied to each
/// of the nodes `cs`, giving `rs`.
pub open spec fn applications(cs: Seq<Oid>, rs: Seq<Oid>) -> Seq<Event>
    decreases cs.len(),
{
    if cs.len() == 0 || rs.len() == 0 {
        Seq::empty()
    } else {
        applications(cs.drop_last(), rs.drop_last()).push(Event::Ancestor(Some(cs.last()))).push(
            Event::Applied(rs.last()),
        )
    }
}

/// What a walk asks while it filters the nodes `cs`: the filter applied to
/// each, then the next node.
pub open spec fn applies(cs: Seq<Oid>) -> Seq<Request>
    decreases cs.len(),
{
    if cs.len() == 0 {
        Seq::empty()
    } else {
        applies(cs.drop_last()).push(Request::Apply(cs.last())).push(Request::Next)
    }
}

/// Filtering, node by node. The walk has the filter applied to each
/// enumerated node, in the order of the enumeration.
pub proof fn lemma_filter_each(w: WalkModel, cs: Seq<Oid>, rs: Seq<Oid>)
    requires
        w.phase == Phase::Filtering,
        cs.len() == rs.len(),
    ensures
        run(w, applications(cs, rs)) == (WalkModel {
            filtered: raise(w.filtered, cs.len()),
            ..w
        }),
        requests(w, applications(cs, rs)) == applies(cs),
    decreases cs.len(),
{
    if cs.len() > 0 {
        let ci = cs.drop_last();
        let ri = rs.drop_last();
        lemma_filter_each(w, ci, ri);
        let ev1 = applications(ci, ri).push(Event::Ancestor(Some(cs.last())));
        lemma_run_push(w, applications(ci, ri), Event::Ancestor(Some(cs.last())));
        lemma_run_push(w, ev1, Event::Applied(rs.last()));
    }
}

/// Filtering, to the end. After the enumerated nodes, the walk has the
/// filter applied to the start itself, and ends with the result of that.
pub proof fn lemma_filter_pass(w: WalkModel, cs: Seq<Oid>, rs: Seq<Oid>, result: Oid)
    requires
        w.phase == Phase::Filtering,
        cs.len() == rs.len(),
    ensures
        ({
            let events = applications(cs, rs).push(Event::Ancestor(None)).push(
                Event::Applied(result),
            );
            &&& run(w, events).phase == Phase::Done(result)
            &&& requests(w, events) == applies(cs).push(Request::Apply(w.input)).push(
                Request::Done(result),
            )
        }),
{
    lemma_filter_each(w, cs, rs);
    lemma_run_push(w, applications(cs, rs), Event::Ancestor(None));
    lemma_run_push(
        w,
        applications(cs, rs).push(Event::Ancestor(None)),
        Event::Applied(result),
    );
}

/// The first of the candidates whose filtered identifier is `filtered`, or
/// the zero identifier if there is none; `results[i]` is the filtered
/// identifier of `candidates[i]`.
pub open spec fn first_original(candidates: Seq<Oid>, results: Seq<Oid>, filtered: Oid) -> Oid
    decreases candidates.len(),
{
    if candidates.len() == 0 || results.len() == 0 {
        zero_oid()
    } else if results[0] == filtered {
        candidates[0]
    } else {
        first_original(candidates.skip(1), results.skip(1), filtered)
    }
}

/// The state and the map in which a scanning search ends when the
/// enumeration yields `candidates` in turn, and the filter applied to
/// `candidates[i]` gives `results[i]`.
pub open spec fn scan(
    s: SearchModel,
    bm: Map<Oid, Oid>,
    candidates: Seq<Oid>,
    results: Seq<Oid>,
) -> (SearchModel, Map<Oid, Oid>)
    decreases candidates.len(),
{
    if candidates.len() == 0 || results.len() == 0 {
        let end = search_next(s, bm, Event::Ancestor(None));
        (end.0, end.1)
    } else {
        let asked = search_next(s, bm, Event::Ancestor(Some(candidates[0])));
        let told = search_next(asked.0, asked.1, Event::Applied(results[0]));
        if told.2 == Request::Next {
            scan(told.0, told.1, candidates.skip(1), results.skip(1))
        } else {
            (told.0, told.1)
        }
    }
}

/// The scan of a search ends with the first candidate whose filtered
/// identifier is the one looked for, and notes it in the map; if there is
/// none it ends with the zero identifier and leaves the map as it is.
pub proof fn lemma_scan_finds_first(
    s: SearchModel,
    bm: Map<Oid, Oid>,
    candidates: Seq<Oid>,
    results: Seq<Oid>,
)
    requires
        s.phase == SearchPhase::Scanning,
        candidates.len() == results.len(),
    ensures
        ({
            let end = scan(s, bm, candidates, results);
            let original = first_original(candidates, results, s.filtered);
            &&& end.0.phase == SearchPhase::Done(original)
            &&& end.1 == (if results.contains(s.filtered) {
                bm.insert(s.filtered, original)
            } else {
                bm
            })
        }),
    decreases candidates.len(),
{
    if candidates.len() > 0 {
        if results[0] == s.filtered {
        } else {
            let asked = search_next(s, bm, Event::Ancestor(Some(candidates[0])));
            let told = search_next(asked.0, asked.1, Event::Applied(results[0]));
            lemma_scan_finds_first(told.0, told.1, candidates.skip(1), results.skip(1));
            if results.contains(s.filtered) {
                let i = choose|i: int| 0 <= i < results.len() && results[i] == s.filtered;
                assert(results.skip(1)[i - 1] == s.filtered);
            }
            if results.skip(1).contains(s.filtered) {
                let i = choose|i: int|
                    0 <= i < results.skip(1).len() && results.skip(1)[i] == s.filtered;
            }
        }
    }
}

/// Where some candidate has the filtered identifier looked for, the first
/// such candidate is one of them.
pub proof fn lemma_first_original(candidates: Seq<Oid>, results: Seq<Oid>, filtered: Oid)
    requires
        candidates.len() == results.len(),
        results.contains(filtered),
    ensures
        exists|j: int|
            0 <= j < candidates.len() && candidates[j] == first_original(
                candidates,
                results,
                filtered,
            ) && #[trigger] results[j] == filtered,
    decreases candidates.len(),
{
    let i = choose|i: int| 0 <= i < results.len() && results[i] == filtered;
    if results[0] == filtered {
        assert(candidates[0] == first_original(candidates, results, filtered) && results[0]
            == filtered);
    } else {
        assert(results.skip(1)[i - 1] == filtered);
        lemma_first_original(candidates.skip(1), results.skip(1), filtered);
        let j = choose|j: int|
            0 <= j < candidates.skip(1).len() && candidates.skip(1)[j] == first_original(
                candidates.skip(1),
                results.skip(1),
                filtered,
            ) && #[trigger] results.skip(1)[j] == filtered;
        assert(candidates[j + 1] == first_original(candidates, results, filtered) && results[j
            + 1] == filtered);
    }
}

/// The inverse property of the origin resolver. Let the ancestors of the
/// containing node be `candidates`, with filtered identifiers `results`.
/// A search for the filtered identifier of any one of them ends with a
/// candidate that has the same filtered identifier.
pub proof fn lemma_find_original_inverse(
    s: SearchModel,
    bm: Map<Oid, Oid>,
    candidates: Seq<Oid>,
    results: Seq<Oid>,
    n: int,
)
    requires
        s.phase == SearchPhase::Scanning,
        candidates.len() == results.len(),
        0 <= n < candidates.len(),
        s.filtered == results[n],
    ensures
        exists|m: int|
            0 <= m < candidates.len() && scan(s, bm, candidates, results).0.phase
                == SearchPhase::Done(candidates[m]) && #[trigger] results[m] == results[n],
{
    lemma_scan_finds_first(s, bm, candidates, results);
    lemma_first_original(candidates, results, s.filtered);
}

} // verus!
