//! The origin resolver: finds the original node whose filtered equivalent
//! is a given identifier.
//!
//! A search first consults its map of earlier answers. If that holds
//! nothing, it walks the containing node (which fills the cache) and notes
//! the result in the map. Then it has the ancestors of the containing node
//! enumerated and the filter applied to each; the first whose filtered
//! identifier is the one looked for is noted in the map and returned. If
//! the enumeration runs out, the result is the zero identifier.

use crate::history::ids::{zero_oid, Oid, OriginMap};
use crate::history::walk::{idle, walk, walk2, walk_next, Event, Phase, Request, Walk, WalkModel};
use vstd::prelude::*;

verus! {

/// Where a search stands.
#[derive(Clone, Copy, Debug, PartialEq, Eq)]
pub enum SearchPhase {
    /// Not started.
    Idle,
    /// Walking the containing node.
    Walking,
    /// Waiting for the next candidate.
    Scanning,
    /// Waiting for the filter to be applied to this candidate.
    Comparing(Oid),
    /// Ended with this result.
    Done(Oid),
    /// Ended in failure.
    Failed,
}

/// The state of a search for the original of `filtered` among the
/// ancestors of `contained_in`.
#[derive(Debug)]
pub struct Search {
    pub contained_in: Oid,
    pub filtered: Oid,
    pub phase: SearchPhase,
    /// The walk of the containing node.
    pub walk: Walk,
}

/// The model of a search's state.
pub struct SearchModel {
    pub contained_in: Oid,
    pub filtered: Oid,
    pub phase: SearchPhase,
    pub walk: WalkModel,
}

impl View for Search {
    type V = SearchModel;

    open spec fn view(&self) -> SearchModel {
        SearchModel {
            contained_in: self.contained_in,
            filtered: self.filtered,
            phase: self.phase,
            walk: self.walk@,
        }
    }
}

/// A search that has not started.
pub open spec fn waiting(contained_in: Oid, filtered: Oid) -> SearchModel {
    SearchModel { contained_in, filtered, phase: SearchPhase::Idle, walk: idle(contained_in) }
}

/// The search ended with result `id`.
pub open spec fn found(s: SearchModel, bm: Map<Oid, Oid>, id: Oid) -> (
    SearchModel,
    Map<Oid, Oid>,
    Request,
) {
    (SearchModel { phase: SearchPhase::Done(id), ..s }, bm, Request::Done(id))
}

/// The search ended in failure.
pub open spec fn lost(s: SearchModel, bm: Map<Oid, Oid>) -> (
    SearchModel,
    Map<Oid, Oid>,
    Request,
) {
    (SearchModel { phase: SearchPhase::Failed, ..s }, bm, Request::Failed)
}

/// One move of a search: the state, the map and the request that follow
/// the answer `e` in state `s` with map `bm`.
pub open spec fn search_next(s: SearchModel, bm: Map<Oid, Oid>, e: Event) -> (
    SearchModel,
    Map<Oid, Oid>,
    Request,
) {
    match s.phase {
        SearchPhase::Done(id) => (s, bm, Request::Done(id)),
        SearchPhase::Failed => (s, bm, Request::Failed),
        SearchPhase::Idle => match e {
            Event::Begin => if s.contained_in == zero_oid() {
                found(s, bm, zero_oid())
            } else if bm.contains_key(s.filtered) {
                found(s, bm, bm[s.filtered])
            } else {
                let (w, r) = walk_next(idle(s.contained_in), Event::Begin);
                (SearchModel { phase: SearchPhase::Walking, walk: w, ..s }, bm, r)
            },
            _ => lost(s, bm),
        },
        SearchPhase::Walking => {
            let (w, r) = walk_next(s.walk, e);
            match w.phase {
                Phase::Done(id) => (
                    SearchModel { phase: SearchPhase::Scanning, walk: w, ..s },
                    if id != zero_oid() {
                        bm.insert(s.contained_in, id)
                    } else {
                        bm
                    },
                    Request::Enumerate { oldest_first: false, hide_known: false },
                ),
                Phase::Failed => lost(SearchModel { walk: w, ..s }, bm),
                _ => (SearchModel { walk: w, ..s }, bm, r),
            }
        },
        SearchPhase::Scanning => match e {
            Event::Ancestor(Some(id)) => (
                SearchModel { phase: SearchPhase::Comparing(id), ..s },
                bm,
                Request::Apply(id),
            ),
            Event::Ancestor(None) => found(s, bm, zero_oid()),
            _ => lost(s, bm),
        },
        SearchPhase::Comparing(id) => match e {
            Event::Applied(r) => if r == s.filtered {
                found(s, bm.insert(s.filtered, id), id)
            } else {
                (SearchModel { phase: SearchPhase::Scanning, ..s }, bm, Request::Next)
            },
            _ => lost(s, bm),
        },
    }
}

impl Search {
    /// A search for the original of `filtered` among the ancestors of
    /// `contained_in`, not started yet.
    pub fn new(contained_in: Oid, filtered: Oid) -> (s: Search)
        ensures
            s@ == waiting(contained_in, filtered),
    {
        let walk = Walk {
            input: contained_in,
            phase: Phase::Idle,
            known: Vec::new(),
            fresh: 0,
            filtered: 0,
        };
        Search { contained_in, filtered, phase: SearchPhase::Idle, walk }
    }
}

/// One move of a search: takes the answer to the last request and returns
/// the next state and request; `bm` is the map of earlier answers, which
/// the search reads at its start and extends when it learns something.
pub fn find_original(search: Search, bm: &mut OriginMap, event: Event) -> (r: (Search, Request))
    requires
        old(bm).wf(),
    ensures
        final(bm).wf(),
        (r.0@, final(bm)@, r.1) == search_next(search@, old(bm)@, event),
{
    let mut search = search;
    match search.phase {
        SearchPhase::Done(id) => (search, Request::Done(id)),
        SearchPhase::Failed => (search, Request::Failed),
        SearchPhase::Idle => {
            match event {
                Event::Begin => {
                    if search.contained_in.is_zero() {
                        search.phase = SearchPhase::Done(Oid::zero());
                        return (search, Request::Done(Oid::zero()));
                    }
                    match bm.get(search.filtered) {
                        Some(original) => {
                            search.phase = SearchPhase::Done(original);
                            (search, Request::Done(original))
                        },
                        None => {
                            let (w, request) = walk(search.contained_in);
                            search.walk = w;
                            search.phase = SearchPhase::Walking;
                            (search, request)
                        },
                    }
                },
                _ => {
                    search.phase = SearchPhase::Failed;
                    (search, Request::Failed)
                },
            }
        },
        SearchPhase::Walking => {
            let Search { contained_in, filtered, phase, walk } = search;
            let (w, request) = walk2(walk, event);
            match w.phase {
                Phase::Done(id) => {
                    if !id.is_zero() {
                        bm.insert(contained_in, id);
                    }
                    (
                        Search { contained_in, filtered, phase: SearchPhase::Scanning, walk: w },
                        Request::Enumerate { oldest_first: false, hide_known: false },
                    )
                },
                Phase::Failed => (
                    Search { contained_in, filtered, phase: SearchPhase::Failed, walk: w },
                    Request::Failed,
                ),
                _ => (Search { contained_in, filtered, phase, walk: w }, request),
            }
        },
        SearchPhase::Scanning => {
            match event {
                Event::Ancestor(Some(id)) => {
                    search.phase = SearchPhase::Comparing(id);
                    (search, Request::Apply(id))
                },
                Event::Ancestor(None) => {
                    search.phase = SearchPhase::Done(Oid::zero());
                    (search, Request::Done(Oid::zero()))
                },
                _ => {
                    search.phase = SearchPhase::Failed;
                    (search, Request::Failed)
                },
            }
        },
        SearchPhase::Comparing(id) => {
            match event {
                Event::Applied(result) => {
                    if result == search.filtered {
                        bm.insert(search.filtered, id);
                        search.phase = SearchPhase::Done(id);
                        (search, Request::Done(id))
                    } else {
                        search.phase = SearchPhase::Scanning;
                        (search, Request::Next)
                    }
                },
                _ => {
                    search.phase = SearchPhase::Failed;
                    (search, Request::Failed)
                },
            }
        },
    }
}

} // verus!
