//! The interning store: structurally identical filters share one handle.

use crate::filter::hash::{node_hash, op_hash};
use crate::filter::term::{chain, subtract, Term};
use crate::path::{Path, PathModel};
use std::collections::HashMap;
use vstd::prelude::*;

verus! {

/// A handle to an interned filter. Within one store, two handles are equal
/// exactly when the filters they denote have the same structure.
#[derive(Clone, Copy, PartialEq, Eq, Structural, Debug, Hash)]
pub struct Filter {
    pub id: usize,
}

/// The content of one filter node; its operands are handles.
#[derive(Debug)]
pub enum Op {
    Identity,
    Empty,
    Subdir(Path),
    Prefix(Path),
    Chain(Filter, Filter),
    Compose(Vec<Filter>),
    Subtract(Filter, Filter),
}

/// The model of a node's content.
pub enum Node {
    Identity,
    Empty,
    Subdir(PathModel),
    Prefix(PathModel),
    Chain(Filter, Filter),
    Compose(Seq<Filter>),
    Subtract(Filter, Filter),
}

impl View for Op {
    type V = Node;

    open spec fn view(&self) -> Node {
        match self {
            Op::Identity => Node::Identity,
            Op::Empty => Node::Empty,
            Op::Subdir(p) => Node::Subdir(p@),
            Op::Prefix(p) => Node::Prefix(p@),
            Op::Chain(a, b) => Node::Chain(*a, *b),
            Op::Compose(fs) => Node::Compose(fs@),
            Op::Subtract(a, b) => Node::Subtract(*a, *b),
        }
    }
}

/// Every operand of the node is a handle below `bound`.
pub open spec fn node_below(n: Node, bound: int) -> bool {
    match n {
        Node::Chain(a, b) => a.id < bound && b.id < bound,
        Node::Subtract(a, b) => a.id < bound && b.id < bound,
        Node::Compose(fs) => forall|k: int| 0 <= k < fs.len() ==> (#[trigger] fs[k]).id < bound,
        _ => true,
    }
}

/// Every node refers only to nodes that were interned before it.
pub open spec fn closed(nodes: Seq<Node>) -> bool {
    forall|i: int| 0 <= i < nodes.len() ==> node_below(#[trigger] nodes[i], i)
}

/// No content occurs twice.
pub open spec fn distinct(nodes: Seq<Node>) -> bool {
    forall|i: int, j: int| 0 <= i < j < nodes.len() ==> #[trigger] nodes[i] != #[trigger] nodes[j]
}

/// The term that node `i` denotes.
#[verifier::opaque]
pub open spec fn term_at(nodes: Seq<Node>, i: int) -> Term
    decreases i,
{
    if i < 0 || i >= nodes.len() {
        Term::Identity
    } else {
        match nodes[i] {
            Node::Identity => Term::Identity,
            Node::Empty => Term::Empty,
            Node::Subdir(p) => Term::Subdir(p),
            Node::Prefix(p) => Term::Prefix(p),
            Node::Chain(a, b) => if a.id < i && b.id < i {
                chain(term_at(nodes, a.id as int), term_at(nodes, b.id as int))
            } else {
                Term::Identity
            },
            Node::Subtract(a, b) => if a.id < i && b.id < i {
                subtract(term_at(nodes, a.id as int), term_at(nodes, b.id as int))
            } else {
                Term::Identity
            },
            Node::Compose(fs) => Term::Compose(
                Seq::new(
                    fs.len(),
                    |k: int|
                        if 0 <= k < fs.len() && fs[k].id < i {
                            term_at(nodes, fs[k].id as int)
                        } else {
                            Term::Identity
                        },
                ),
            ),
        }
    }
}

/// Nodes keep their term when more nodes are added behind them.
pub proof fn lemma_term_at_prefix(nodes: Seq<Node>, more: Seq<Node>, i: int)
    requires
        nodes.is_prefix_of(more),
        0 <= i < nodes.len(),
    ensures
        term_at(more, i) == term_at(nodes, i),
    decreases i,
{
    reveal(term_at);
    match nodes[i] {
        Node::Chain(a, b) => {
            if a.id < i && b.id < i {
                lemma_term_at_prefix(nodes, more, a.id as int);
                lemma_term_at_prefix(nodes, more, b.id as int);
            }
        },
        Node::Subtract(a, b) => {
            if a.id < i && b.id < i {
                lemma_term_at_prefix(nodes, more, a.id as int);
                lemma_term_at_prefix(nodes, more, b.id as int);
            }
        },
        Node::Compose(fs) => {
            let s1 = term_at(nodes, i)->Compose_0;
            let s2 = term_at(more, i)->Compose_0;
            assert forall|k: int| 0 <= k < fs.len() implies s1[k] == s2[k] by {
                if fs[k].id < i {
                    lemma_term_at_prefix(nodes, more, fs[k].id as int);
                }
            }
            assert(s1 =~= s2);
        },
        _ => {},
    }
}

/// In a closed store without repeated content, two nodes that denote the
/// same term are the same node.
pub proof fn lemma_term_at_injective(nodes: Seq<Node>, i: int, j: int)
    requires
        closed(nodes),
        distinct(nodes),
        0 <= i < nodes.len(),
        0 <= j < nodes.len(),
        term_at(nodes, i) == term_at(nodes, j),
    ensures
        i == j,
    decreases i,
{
    reveal(term_at);
    match nodes[i] {
        Node::Chain(a, b) => {
            match nodes[j] {
                Node::Chain(c, d) => {
                    lemma_term_at_injective(nodes, a.id as int, c.id as int);
                    lemma_term_at_injective(nodes, b.id as int, d.id as int);
                },
                _ => {},
            }
        },
        Node::Subtract(a, b) => {
            match nodes[j] {
                Node::Subtract(c, d) => {
                    lemma_term_at_injective(nodes, a.id as int, c.id as int);
                    lemma_term_at_injective(nodes, b.id as int, d.id as int);
                },
                _ => {},
            }
        },
        Node::Compose(fs) => {
            match nodes[j] {
                Node::Compose(gs) => {
                    let s1 = term_at(nodes, i)->Compose_0;
                    let s2 = term_at(nodes, j)->Compose_0;
                    assert(s1.len() == fs.len());
                    assert forall|k: int| 0 <= k < fs.len() implies fs[k] == gs[k] by {
                        assert(s1[k] == s2[k]);
                        lemma_term_at_injective(nodes, fs[k].id as int, gs[k].id as int);
                    }
                    assert(fs =~= gs);
                },
                _ => {},
            }
        },
        _ => {
        },
    }
}

/// Copies a list of handles.
pub fn copy_filters(fs: &Vec<Filter>) -> (out: Vec<Filter>)
    ensures
        out@ == fs@,
{
    let mut out: Vec<Filter> = Vec::new();
    let mut i: usize = 0;
    while i < fs.len()
        invariant
            i <= fs.len(),
            out@ == fs@.take(i as int),
        decreases fs.len() - i,
    {
        out.push(fs[i]);
        i += 1;
    }
    out
}

/// Whether two lists hold the same handles in the same order.
pub fn same_filters(xs: &Vec<Filter>, ys: &Vec<Filter>) -> (r: bool)
    ensures
        r == (xs@ == ys@),
{
    if xs.len() != ys.len() {
        return false;
    }
    let mut i: usize = 0;
    while i < xs.len()
        invariant
            i <= xs.len(),
            xs.len() == ys.len(),
            forall|k: int| 0 <= k < i ==> xs@[k] == ys@[k],
        decreases xs.len() - i,
    {
        if xs[i] != ys[i] {
            return false;
        }
        i += 1;
    }
    assert(xs@ =~= ys@);
    true
}

/// Whether a list holds the handle.
pub fn has_filter(fs: &Vec<Filter>, f: Filter) -> (r: bool)
    ensures
        r == fs@.contains(f),
{
    let mut i: usize = 0;
    while i < fs.len()
        invariant
            i <= fs.len(),
            forall|k: int| 0 <= k < i ==> fs@[k] != f,
        decreases fs.len() - i,
    {
        if fs[i] == f {
            return true;
        }
        i += 1;
    }
    false
}

/// Whether two contents are structurally the same.
pub fn same_op(a: &Op, b: &Op) -> (r: bool)
    ensures
        r == (a@ == b@),
{
    match (a, b) {
        (Op::Identity, Op::Identity) => true,
        (Op::Empty, Op::Empty) => true,
        (Op::Subdir(p), Op::Subdir(q)) => p.same(q),
        (Op::Prefix(p), Op::Prefix(q)) => p.same(q),
        (Op::Chain(x, y), Op::Chain(u, v)) => *x == *u && *y == *v,
        (Op::Compose(xs), Op::Compose(ys)) => same_filters(xs, ys),
        (Op::Subtract(x, y), Op::Subtract(u, v)) => *x == *u && *y == *v,
        _ => false,
    }
}

/// A copy of a content.
pub fn copy_op(op: &Op) -> (r: Op)
    ensures
        r@ == op@,
{
    match op {
        Op::Identity => Op::Identity,
        Op::Empty => Op::Empty,
        Op::Subdir(p) => Op::Subdir(p.copy()),
        Op::Prefix(p) => Op::Prefix(p.copy()),
        Op::Chain(a, b) => Op::Chain(*a, *b),
        Op::Compose(fs) => Op::Compose(copy_filters(fs)),
        Op::Subtract(a, b) => Op::Subtract(*a, *b),
    }
}

/// A composition with a member at or above `bound` is not below it.
pub proof fn lemma_operand_above(fs: Seq<Filter>, at: int, bound: int)
    requires
        0 <= at < fs.len(),
        fs[at].id >= bound,
    ensures
        !node_below(Node::Compose(fs), bound),
{
    let n = Node::Compose(fs);
    if node_below(n, bound) {
        assert(n->Compose_0 == fs);
        assert(forall|k: int| 0 <= k < fs.len() ==> (#[trigger] fs[k]).id < bound);
        assert(fs[at].id < bound);
    }
}

/// Whether every operand of the content is a handle below `bound`.
pub fn op_below(op: &Op, bound: usize) -> (r: bool)
    ensures
        r == node_below(op@, bound as int),
{
    match op {
        Op::Chain(a, b) => a.id < bound && b.id < bound,
        Op::Subtract(a, b) => a.id < bound && b.id < bound,
        Op::Compose(fs) => {
            let mut k: usize = 0;
            while k < fs.len()
                invariant
                    k <= fs.len(),
                    op@ == Node::Compose(fs@),
                    forall|j: int| 0 <= j < k ==> (#[trigger] fs@[j]).id < bound,
                decreases fs.len() - k,
            {
                if fs[k].id >= bound {
                    proof {
                        lemma_operand_above(fs@, k as int, bound as int);
                    }
                    return false;
                }
                k += 1;
            }
            true
        },
        _ => true,
    }
}

/// Whether a list of node numbers holds the number.
pub fn has_index(list: &Vec<usize>, i: usize) -> (r: bool)
    ensures
        r == list@.contains(i),
{
    let mut k: usize = 0;
    while k < list.len()
        invariant
            k <= list.len(),
            forall|j: int| 0 <= j < k ==> list@[j] != i,
        decreases list.len() - k,
    {
        if list[k] == i {
            return true;
        }
        k += 1;
    }
    false
}

/// The arena of interned filter nodes, with a table from the hash of a
/// content to the nodes that hold a content of that hash. A handle is the
/// index of its node; a node's operands are handles of nodes interned
/// before it.
pub struct FilterStore {
    pub nodes: Vec<Op>,
    pub index: HashMap<u64, Vec<usize>>,
}

impl FilterStore {
    /// The contents of all nodes, by handle.
    pub open spec fn shape(&self) -> Seq<Node> {
        Seq::new(self.nodes@.len(), |i: int| self.nodes@[i]@)
    }

    /// Every node is listed in the table under the hash of its content.
    pub open spec fn indexed(&self) -> bool {
        forall|i: int|
            0 <= i < self.nodes@.len() ==> {
                let h = node_hash(#[trigger] self.shape()[i]);
                self.index@.contains_key(h) && self.index@[h]@.contains(i as usize)
            }
    }

    /// The store's invariant: operands precede their node, no content is
    /// stored twice, and the table is complete.
    pub open spec fn wf(&self) -> bool {
        closed(self.shape()) && distinct(self.shape()) && self.indexed()
    }

    /// The handle belongs to this store.
    pub open spec fn contains(&self, f: Filter) -> bool {
        f.id < self.nodes@.len()
    }

    pub open spec fn contains_all(&self, fs: Seq<Filter>) -> bool {
        forall|k: int| 0 <= k < fs.len() ==> self.contains(#[trigger] fs[k])
    }

    /// All operands of the content are handles of this store.
    pub open spec fn holds(&self, n: Node) -> bool {
        node_below(n, self.nodes@.len() as int)
    }

    /// The filter expression that the handle denotes.
    pub open spec fn term(&self, f: Filter) -> Term {
        term_at(self.shape(), f.id as int)
    }

    pub open spec fn terms(&self, fs: Seq<Filter>) -> Seq<Term> {
        fs.map_values(|f: Filter| self.term(f))
    }

    /// The filter expression that a content denotes, given the terms of
    /// its operands.
    pub open spec fn denote(&self, n: Node) -> Term {
        match n {
            Node::Identity => Term::Identity,
            Node::Empty => Term::Empty,
            Node::Subdir(p) => Term::Subdir(p),
            Node::Prefix(p) => Term::Prefix(p),
            Node::Chain(a, b) => chain(self.term(a), self.term(b)),
            Node::Compose(fs) => Term::Compose(self.terms(fs)),
            Node::Subtract(a, b) => subtract(self.term(a), self.term(b)),
        }
    }

    /// Every handle of `prev` is a handle of `self` and denotes the same
    /// term.
    pub open spec fn extends(&self, prev: &FilterStore) -> bool {
        forall|f: Filter| #[trigger]
            prev.contains(f) ==> self.contains(f) && self.term(f) == prev.term(f)
    }

    /// A node denotes what its content denotes.
    pub proof fn lemma_denote(&self, f: Filter)
        requires
            self.wf(),
            self.contains(f),
        ensures
            self.holds(self.shape()[f.id as int]),
            self.term(f) == self.denote(self.shape()[f.id as int]),
    {
        reveal(term_at);
        let n = self.shape()[f.id as int];
        match n {
            Node::Compose(fs) => {
                assert(self.term(f)->Compose_0 =~= self.terms(fs));
            },
            _ => {},
        }
    }

    /// The interning invariant: handles are equal exactly when their terms
    /// are.
    pub proof fn lemma_same_term(&self, a: Filter, b: Filter)
        requires
            self.wf(),
            self.contains(a),
            self.contains(b),
        ensures
            (self.term(a) == self.term(b)) <==> a == b,
    {
        if self.term(a) == self.term(b) {
            lemma_term_at_injective(self.shape(), a.id as int, b.id as int);
        }
    }

    /// The handles of every group belong to this store, and no group is
    /// empty.
    pub open spec fn contains_groups(&self, groups: Seq<Vec<Filter>>) -> bool {
        forall|g: int|
            0 <= g < groups.len() ==> (#[trigger] groups[g])@.len() > 0 && self.contains_all(
                groups[g]@,
            )
    }

    /// The terms of a list of groups of handles.
    pub open spec fn group_terms(&self, groups: Seq<Vec<Filter>>) -> Seq<Seq<Term>> {
        Seq::new(groups.len(), |g: int| self.terms(groups[g]@))
    }

    /// A list holds a handle exactly when its terms hold the handle's term.
    pub proof fn lemma_contains_term(&self, fs: Seq<Filter>, f: Filter)
        requires
            self.wf(),
            self.contains_all(fs),
            self.contains(f),
        ensures
            fs.contains(f) <==> self.terms(fs).contains(self.term(f)),
    {
        if fs.contains(f) {
            let i = choose|i: int| 0 <= i < fs.len() && fs[i] == f;
            assert(self.terms(fs)[i] == self.term(f));
        }
        if self.terms(fs).contains(self.term(f)) {
            let i = choose|i: int|
                0 <= i < self.terms(fs).len() && self.terms(fs)[i] == self.term(f);
            self.lemma_same_term(fs[i], f);
        }
    }

    /// Lists of handles keep their terms when the store grows.
    pub proof fn lemma_terms_stable(&self, prev: &FilterStore, fs: Seq<Filter>)
        requires
            self.extends(prev),
            prev.contains_all(fs),
        ensures
            self.contains_all(fs),
            self.terms(fs) == prev.terms(fs),
    {
    }

    /// An empty store: no node, and nothing listed in the table.
    pub fn new() -> (s: FilterStore)
        ensures
            s.wf(),
            s.nodes@.len() == 0,
            s.index@ == Map::<u64, Vec<usize>>::empty(),
    {
        FilterStore { nodes: Vec::new(), index: HashMap::new() }
    }

    /// The number of interned nodes.
    pub fn len(&self) -> (n: usize)
        ensures
            n == self.nodes@.len(),
    {
        self.nodes.len()
    }

    /// Whether the store is well formed.
    pub fn check(&self) -> (r: bool)
        ensures
            r == self.wf(),
    {
        broadcast use vstd::std_specs::hash::group_hash_axioms;

        let n = self.nodes.len();
        let mut i: usize = 0;
        while i < n
            invariant
                i <= n,
                n == self.nodes@.len(),
                forall|a: int| 0 <= a < i ==> node_below(#[trigger] self.shape()[a], a),
                forall|a: int, b: int|
                    0 <= a < b < i ==> #[trigger] self.shape()[a] != #[trigger] self.shape()[b],
                forall|a: int|
                    0 <= a < i ==> {
                        let h = node_hash(#[trigger] self.shape()[a]);
                        self.index@.contains_key(h) && self.index@[h]@.contains(a as usize)
                    },
            decreases n - i,
        {
            if !op_below(&self.nodes[i], i) {
                assert(!node_below(self.shape()[i as int], i as int));
                return false;
            }
            let mut j: usize = 0;
            while j < i
                invariant
                    j <= i,
                    i < n,
                    n == self.nodes@.len(),
                    forall|a: int| 0 <= a < j ==> self.shape()[a] != self.shape()[i as int],
                decreases i - j,
            {
                if same_op(&self.nodes[j], &self.nodes[i]) {
                    assert(self.shape()[j as int] == self.shape()[i as int]);
                    return false;
                }
                j += 1;
            }
            let h = op_hash(&self.nodes[i]);
            let listed = match self.index.get(&h) {
                Some(bucket) => has_index(bucket, i),
                None => false,
            };
            if !listed {
                assert(h == node_hash(self.shape()[i as int]));
                return false;
            }
            i += 1;
        }
        true
    }

    /// The node that holds the content, if there is one; `h` is the hash
    /// of the content.
    fn find(&self, op: &Op, h: u64) -> (r: Option<usize>)
        requires
            self.wf(),
            h == node_hash(op@),
        ensures
            match r {
                Some(i) => i < self.nodes@.len() && self.shape()[i as int] == op@,
                None => forall|j: int| 0 <= j < self.nodes@.len() ==> self.shape()[j] != op@,
            },
    {
        broadcast use vstd::std_specs::hash::group_hash_axioms;

        let n = self.nodes.len();
        match self.index.get(&h) {
            Some(bucket) => {
                let mut k: usize = 0;
                while k < bucket.len()
                    invariant
                        k <= bucket.len(),
                        n == self.nodes@.len(),
                        self.indexed(),
                        self.index@.contains_key(h),
                        self.index@[h] == *bucket,
                        forall|j: int|
                            0 <= j < k && bucket@[j] < n ==> self.shape()[bucket@[j] as int]
                                != op@,
                    decreases bucket.len() - k,
                {
                    let i = bucket[k];
                    if i < n && same_op(&self.nodes[i], op) {
                        return Some(i);
                    }
                    k += 1;
                }
                proof {
                    assert forall|j: int| 0 <= j < self.nodes@.len() implies self.shape()[j]
                        != op@ by {
                        if self.shape()[j] == op@ {
                            assert(j < n);
                            assert(bucket@.contains(j as usize));
                            let k = choose|k: int|
                                0 <= k < bucket@.len() && bucket@[k] == j as usize;
                            assert(bucket@[k] as int == j);
                        }
                    }
                }
                None
            },
            None => {
                None
            },
        }
    }

    /// Lists node `i` in the table under the hash `h`.
    fn list(&mut self, h: u64, i: usize)
        ensures
            final(self).nodes == old(self).nodes,
            final(self).index@.contains_key(h),
            final(self).index@[h]@ == (if old(self).index@.contains_key(h) {
                old(self).index@[h]@.push(i)
            } else {
                seq![i]
            }),
            forall|g: u64|
                g != h ==> (#[trigger] final(self).index@.contains_key(g) <==> old(
                    self,
                ).index@.contains_key(g)),
            forall|g: u64|
                g != h && old(self).index@.contains_key(g) ==> #[trigger] final(self).index@[g]
                    == old(self).index@[g],
    {
        broadcast use vstd::std_specs::hash::group_hash_axioms;

        let mut bucket = match self.index.remove(&h) {
            Some(listed) => listed,
            None => Vec::new(),
        };
        bucket.push(i);
        self.index.insert(h, bucket);
    }

    /// The canonical handle for a content: the handle of the node that
    /// already holds it, or of a new node.
    pub fn intern(&mut self, op: Op) -> (f: Filter)
        requires
            old(self).wf(),
            old(self).holds(op@),
        ensures
            final(self).wf(),
            final(self).extends(old(self)),
            final(self).contains(f),
            final(self).shape()[f.id as int] == op@,
            final(self).term(f) == old(self).denote(op@),
    {
        let h = op_hash(&op);
        match self.find(&op, h) {
            Some(i) => {
                let f = Filter { id: i };
                proof {
                    self.lemma_denote(f);
                }
                return f;
            },
            None => {},
        }
        let f = Filter { id: self.nodes.len() };
        let ghost before = self.shape();
        self.nodes.push(op);
        self.list(h, f.id);
        proof {
            let after = self.shape();
            assert(after =~= before.push(op@));
            self.lemma_listed(old(self), h, op@);
            assert forall|g: Filter| #[trigger] old(self).contains(g) implies self.contains(g)
                && self.term(g) == old(self).term(g) by {
                lemma_term_at_prefix(before, after, g.id as int);
            }
            self.lemma_denote(f);
            match op@ {
                Node::Compose(fs) => {
                    assert(self.terms(fs) =~= old(self).terms(fs)) by {
                        assert forall|k: int| 0 <= k < fs.len() implies self.term(fs[k]) == old(
                            self,
                        ).term(fs[k]) by {
                            assert(old(self).contains(fs[k]));
                        }
                    }
                },
                Node::Chain(a, b) => {
                    assert(old(self).contains(a) && old(self).contains(b));
                },
                Node::Subtract(a, b) => {
                    assert(old(self).contains(a) && old(self).contains(b));
                },
                _ => {},
            }
        }
        f
    }

    /// A store with one more node, listed under its hash, has a complete
    /// table if the store before had one.
    proof fn lemma_listed(&self, prev: &FilterStore, h: u64, n: Node)
        requires
            prev.indexed(),
            h == node_hash(n),
            self.shape() == prev.shape().push(n),
            self.index@.contains_key(h),
            self.index@[h]@ == (if prev.index@.contains_key(h) {
                prev.index@[h]@.push(prev.nodes@.len() as usize)
            } else {
                seq![prev.nodes@.len() as usize]
            }),
            forall|g: u64|
                g != h ==> (#[trigger] self.index@.contains_key(g) <==> prev.index@.contains_key(g)),
            forall|g: u64|
                g != h && prev.index@.contains_key(g) ==> #[trigger] self.index@[g]
                    == prev.index@[g],
        ensures
            self.indexed(),
    {
        let last = prev.nodes@.len() as usize;
        assert(self.nodes@.len() == prev.nodes@.len() + 1) by {
            assert(self.shape().len() == prev.shape().len() + 1);
        }
        assert forall|i: int| 0 <= i < self.nodes@.len() implies ({
            let hi = node_hash(#[trigger] self.shape()[i]);
            self.index@.contains_key(hi) && self.index@[hi]@.contains(i as usize)
        }) by {
            let hi = node_hash(self.shape()[i]);
            if i < prev.nodes@.len() {
                if hi == h {
                    let listed = prev.index@[h]@;
                    let k = choose|k: int| 0 <= k < listed.len() && listed[k] == i as usize;
                    assert(listed.push(last)[k] == i as usize);
                }
            } else {
                assert(self.index@[h]@[self.index@[h]@.len() - 1] == last);
            }
        }
    }

    /// The content of a node.
    pub fn get(&self, f: Filter) -> (op: &Op)
        requires
            self.wf(),
            self.contains(f),
        ensures
            op@ == self.shape()[f.id as int],
            node_below(op@, f.id as int),
            self.holds(op@),
            self.denote(op@) == self.term(f),
    {
        proof {
            self.lemma_denote(f);
        }
        &self.nodes[f.id]
    }

    /// A copy of the content of a node.
    pub fn resolve(&self, f: Filter) -> (op: Op)
        requires
            self.wf(),
            self.contains(f),
        ensures
            op@ == self.shape()[f.id as int],
            node_below(op@, f.id as int),
            self.holds(op@),
            self.denote(op@) == self.term(f),
    {
        copy_op(self.get(f))
    }
}

} // verus!
