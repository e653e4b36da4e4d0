//! Memoization tables from a filter to the filter computed for it.

use crate::filter::store::Filter;
use std::collections::HashMap;
use vstd::prelude::*;

verus! {

/// A table from handles to handles, keyed by the handle's number.
pub struct Memo {
    pub entries: HashMap<usize, Filter>,
}

impl View for Memo {
    type V = Map<Filter, Filter>;

    open spec fn view(&self) -> Map<Filter, Filter> {
        Map::new(
            |k: Filter| self.entries@.contains_key(k.id),
            |k: Filter| self.entries@[k.id],
        )
    }
}

impl Memo {
    /// Every entry of `prev` is an entry of `self`.
    pub open spec fn includes(&self, prev: &Memo) -> bool {
        forall|k: Filter| #[trigger]
            prev@.contains_key(k) ==> self@.contains_key(k) && self@[k] == prev@[k]
    }

    /// An empty table.
    pub fn new() -> (m: Memo)
        ensures
            m@ == Map::<Filter, Filter>::empty(),
    {
        let m = Memo { entries: HashMap::new() };
        assert(m@ =~= Map::<Filter, Filter>::empty());
        m
    }

    /// The entry recorded for `key`, if there is one.
    pub fn get(&self, key: Filter) -> (r: Option<Filter>)
        ensures
            r == (if self@.contains_key(key) {
                Some(self@[key])
            } else {
                None
            }),
    {
        broadcast use vstd::std_specs::hash::group_hash_axioms;

        match self.entries.get(&key.id) {
            Some(value) => Some(*value),
            None => None,
        }
    }

    /// Records `value` for `key`, in place of any earlier entry.
    pub fn insert(&mut self, key: Filter, value: Filter)
        ensures
            final(self)@ == old(self)@.insert(key, value),
    {
        broadcast use vstd::std_specs::hash::group_hash_axioms;

        self.entries.insert(key.id, value);
        assert(self@ =~= old(self)@.insert(key, value));
    }
}

} // verus!
