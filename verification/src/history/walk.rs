//! The walker: computes the filtered equivalent of a history node, reusing
//! what the cache already holds.
//!
//! A walk goes through these phases. It asks whether the start exists; if
//! not, the result is the zero identifier. It asks the cache for the
//! start; a hit is the result. Otherwise it finds the frontier of known
//! work: it has the ancestors of the start enumerated, asks the cache for
//! each, and at the first hit adds that node to the known set and starts
//! the enumeration again with the known nodes hidden; this ends when an
//! enumeration runs out without a hit. Then it has the ancestors outside
//! the known set enumerated oldest first and the filter applied to each,
//! and at last to the start itself, whose filtered identifier is the result.

use crate::history::ids::{zero_oid, Oid};
use vstd::prelude::*;

verus! {

/// What the driver reports to a traversal.
#[derive(Clone, Copy, Debug, PartialEq, Eq)]
pub enum Event {
    /// The traversal starts; nothing was asked yet.
    Begin,
    /// Answer to `FindCommit`: whether the node exists.
    Found(bool),
    /// Answer to `CacheGet`: the cached filtered identifier, if any.
    Cached(Option<Oid>),
    /// Answer to `Enumerate` and to `Next`: the next node of the
    /// enumeration, or `None` when it has run out.
    Ancestor(Option<Oid>),
    /// Answer to `Apply`: the filtered identifier of the node.
    Applied(Oid),
    /// The request failed in the object store.
    Error,
}

/// What a traversal asks of its driver.
#[derive(Clone, Copy, Debug, PartialEq, Eq)]
pub enum Request {
    /// Look the node up in the object store.
    FindCommit(Oid),
    /// Look up the filtered identifier cached for the node.
    CacheGet(Oid),
    /// Start a new enumeration, in topological order, of the start node
    /// and its ancestors, without the known nodes and their ancestors when
    /// `hide_known` is set; oldest first when `oldest_first` is set. The
    /// answer is the first node.
    Enumerate { oldest_first: bool, hide_known: bool },
    /// Go on with the current enumeration. The answer is the next node.
    Next,
    /// Apply the filter to the node and record the result in the cache.
    Apply(Oid),
    /// The traversal has ended with this result.
    Done(Oid),
    /// The traversal has ended for a failure of the object store, or for
    /// an answer that fits no request.
    Failed,
}

/// Where a walk stands.
#[derive(Clone, Copy, Debug, PartialEq, Eq)]
pub enum Phase {
    /// Not started.
    Idle,
    /// Waiting to learn whether the start exists.
    Locating,
    /// Waiting for the cache's answer on the start.
    Probing,
    /// Finding the known frontier: waiting for the next ancestor.
    Scanning,
    /// Finding the known frontier: waiting for the cache's answer on this
    /// ancestor.
    Checking(Oid),
    /// Filtering: waiting for the next ancestor, oldest first.
    Filtering,
    /// Filtering: waiting for the filter to be applied to an ancestor.
    Applying,
    /// Waiting for the filter to be applied to the start itself.
    Finishing,
    /// Ended with this result.
    Done(Oid),
    /// Ended in failure.
    Failed,
}

/// The state of a walk.
#[derive(Debug)]
pub struct Walk {
    /// The node whose filtered equivalent is wanted.
    pub input: Oid,
    pub phase: Phase,
    /// The ancestors found in the cache so far: the frontier of known work.
    pub known: Vec<Oid>,
    /// How many ancestors the current enumeration found not to be cached.
    pub fresh: usize,
    /// How many ancestors the filter was applied to.
    pub filtered: usize,
}

/// The model of a walk's state.
pub struct WalkModel {
    pub input: Oid,
    pub phase: Phase,
    pub known: Seq<Oid>,
    pub fresh: usize,
    pub filtered: usize,
}

impl View for Walk {
    type V = WalkModel;

    open spec fn view(&self) -> WalkModel {
        WalkModel {
            input: self.input,
            phase: self.phase,
            known: self.known@,
            fresh: self.fresh,
            filtered: self.filtered,
        }
    }
}

/// A walk for `input` that has not started.
pub open spec fn idle(input: Oid) -> WalkModel {
    WalkModel { input, phase: Phase::Idle, known: Seq::empty(), fresh: 0, filtered: 0 }
}

/// A counter raised by one, unless it is at its largest value.
pub open spec fn bump(n: usize) -> usize {
    if n < usize::MAX {
        (n + 1) as usize
    } else {
        n
    }
}

/// The walk ended with result `id`.
pub open spec fn settle(w: WalkModel, id: Oid) -> (WalkModel, Request) {
    (WalkModel { phase: Phase::Done(id), ..w }, Request::Done(id))
}

/// The walk ended in failure.
pub open spec fn fail(w: WalkModel) -> (WalkModel, Request) {
    (WalkModel { phase: Phase::Failed, ..w }, Request::Failed)
}

/// One move of the search for the known frontier. An ancestor is checked
/// against the cache; a hit makes it known and starts the enumeration
/// again, a miss is counted and the enumeration goes on. When the
/// enumeration runs out the frontier is complete, and filtering begins.
pub open spec fn find_known_next(w: WalkModel, e: Event) -> (WalkModel, Request) {
    match (w.phase, e) {
        (Phase::Scanning, Event::Ancestor(Some(id))) => (
            WalkModel { phase: Phase::Checking(id), ..w },
            Request::CacheGet(id),
        ),
        (Phase::Scanning, Event::Ancestor(None)) => (
            WalkModel { phase: Phase::Filtering, filtered: 0, ..w },
            Request::Enumerate { oldest_first: true, hide_known: true },
        ),
        (Phase::Checking(id), Event::Cached(Some(_))) => (
            WalkModel { phase: Phase::Scanning, known: w.known.push(id), fresh: 0, ..w },
            Request::Enumerate { oldest_first: false, hide_known: true },
        ),
        (Phase::Checking(_), Event::Cached(None)) => (
            WalkModel { phase: Phase::Scanning, fresh: bump(w.fresh), ..w },
            Request::Next,
        ),
        _ => fail(w),
    }
}

/// One move of a walk: the state and the request that follow the answer
/// `e` in state `w`.
pub open spec fn walk_next(w: WalkModel, e: Event) -> (WalkModel, Request) {
    match (w.phase, e) {
        (Phase::Done(id), _) => (w, Request::Done(id)),
        (Phase::Failed, _) => (w, Request::Failed),
        (Phase::Idle, Event::Begin) => (
            WalkModel { phase: Phase::Locating, ..w },
            Request::FindCommit(w.input),
        ),
        (Phase::Locating, Event::Found(false)) => settle(w, zero_oid()),
        (Phase::Locating, Event::Found(true)) => (
            WalkModel { phase: Phase::Probing, ..w },
            Request::CacheGet(w.input),
        ),
        (Phase::Probing, Event::Cached(Some(id))) => settle(w, id),
        (Phase::Probing, Event::Cached(None)) => (
            WalkModel { phase: Phase::Scanning, known: Seq::empty(), fresh: 0, ..w },
            Request::Enumerate { oldest_first: false, hide_known: true },
        ),
        (Phase::Scanning, _) => find_known_next(w, e),
        (Phase::Checking(_), _) => find_known_next(w, e),
        (Phase::Filtering, Event::Ancestor(Some(id))) => (
            WalkModel { phase: Phase::Applying, ..w },
            Request::Apply(id),
        ),
        (Phase::Filtering, Event::Ancestor(None)) => (
            WalkModel { phase: Phase::Finishing, ..w },
            Request::Apply(w.input),
        ),
        (Phase::Applying, Event::Applied(_)) => (
            WalkModel { phase: Phase::Filtering, filtered: bump(w.filtered), ..w },
            Request::Next,
        ),
        (Phase::Finishing, Event::Applied(id)) => settle(w, id),
        _ => fail(w),
    }
}

/// The state after a walk in state `w` has taken the answers `events` in
/// turn.
pub open spec fn run(w: WalkModel, events: Seq<Event>) -> WalkModel
    decreases events.len(),
{
    if events.len() == 0 {
        w
    } else {
        walk_next(run(w, events.drop_last()), events.last()).0
    }
}

/// The requests that a walk in state `w` makes as it takes the answers
/// `events` in turn.
pub open spec fn requests(w: WalkModel, events: Seq<Event>) -> Seq<Request>
    decreases events.len(),
{
    if events.len() == 0 {
        Seq::empty()
    } else {
        requests(w, events.drop_last()).push(
            walk_next(run(w, events.drop_last()), events.last()).1,
        )
    }
}

/// A counter raised by one, unless it is at its largest value.
fn raised(n: usize) -> (r: usize)
    ensures
        r == bump(n),
{
    if n < usize::MAX {
        n + 1
    } else {
        n
    }
}

/// One move of the search for the known frontier of a walk that is in
/// phase `Scanning` or `Checking`.
pub fn find_known(walk: Walk, event: Event) -> (r: (Walk, Request))
    ensures
        (r.0@, r.1) == find_known_next(walk@, event),
{
    let mut walk = walk;
    match (walk.phase, event) {
        (Phase::Scanning, Event::Ancestor(Some(id))) => {
            walk.phase = Phase::Checking(id);
            (walk, Request::CacheGet(id))
        },
        (Phase::Scanning, Event::Ancestor(None)) => {
            walk.phase = Phase::Filtering;
            walk.filtered = 0;
            (walk, Request::Enumerate { oldest_first: true, hide_known: true })
        },
        (Phase::Checking(id), Event::Cached(Some(_))) => {
            walk.phase = Phase::Scanning;
            walk.known.push(id);
            walk.fresh = 0;
            (walk, Request::Enumerate { oldest_first: false, hide_known: true })
        },
        (Phase::Checking(_), Event::Cached(None)) => {
            walk.phase = Phase::Scanning;
            walk.fresh = raised(walk.fresh);
            (walk, Request::Next)
        },
        _ => {
            walk.phase = Phase::Failed;
            (walk, Request::Failed)
        },
    }
}

/// One move of a walk: takes the answer to the last request and returns
/// the next state and request.
pub fn walk2(walk: Walk, event: Event) -> (r: (Walk, Request))
    ensures
        (r.0@, r.1) == walk_next(walk@, event),
{
    let mut walk = walk;
    match (walk.phase, event) {
        (Phase::Done(id), _) => (walk, Request::Done(id)),
        (Phase::Failed, _) => (walk, Request::Failed),
        (Phase::Idle, Event::Begin) => {
            walk.phase = Phase::Locating;
            let input = walk.input;
            (walk, Request::FindCommit(input))
        },
        (Phase::Locating, Event::Found(false)) => {
            walk.phase = Phase::Done(Oid::zero());
            (walk, Request::Done(Oid::zero()))
        },
        (Phase::Locating, Event::Found(true)) => {
            walk.phase = Phase::Probing;
            let input = walk.input;
            (walk, Request::CacheGet(input))
        },
        (Phase::Probing, Event::Cached(Some(id))) => {
            walk.phase = Phase::Done(id);
            (walk, Request::Done(id))
        },
        (Phase::Probing, Event::Cached(None)) => {
            walk.phase = Phase::Scanning;
            walk.known = Vec::new();
            walk.fresh = 0;
            (walk, Request::Enumerate { oldest_first: false, hide_known: true })
        },
        (Phase::Scanning, _) => find_known(walk, event),
        (Phase::Checking(_), _) => find_known(walk, event),
        (Phase::Filtering, Event::Ancestor(Some(id))) => {
            walk.phase = Phase::Applying;
            (walk, Request::Apply(id))
        },
        (Phase::Filtering, Event::Ancestor(None)) => {
            walk.phase = Phase::Finishing;
            let input = walk.input;
            (walk, Request::Apply(input))
        },
        (Phase::Applying, Event::Applied(_)) => {
            walk.phase = Phase::Filtering;
            walk.filtered = raised(walk.filtered);
            (walk, Request::Next)
        },
        (Phase::Finishing, Event::Applied(id)) => {
            walk.phase = Phase::Done(id);
            (walk, Request::Done(id))
        },
        _ => {
            walk.phase = Phase::Failed;
            (walk, Request::Failed)
        },
    }
}

/// Starts a walk for `input`: the first request asks whether `input`
/// exists.
pub fn walk(input: Oid) -> (r: (Walk, Request))
    ensures
        (r.0@, r.1) == walk_next(idle(input), Event::Begin),
        r.0@.phase == Phase::Locating,
        r.1 == Request::FindCommit(input),
{
    let start = Walk { input, phase: Phase::Idle, known: Vec::new(), fresh: 0, filtered: 0 };
    walk2(start, Event::Begin)
}

} // verus!
