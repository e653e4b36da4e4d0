//! A hash of a node's content, by which the store finds equal contents
//! without comparing a new content against every node.

use crate::filter::store::{Filter, Node, Op};
use crate::path::{Path, PathModel};
use vstd::prelude::*;

verus! {

/// Hashes stay below this prime, the largest below two to the 32nd.
pub const MODULUS: u64 = 4294967291;

/// Each step of a hash multiplies by this factor.
pub const FACTOR: u64 = 16777619;

/// What separates the segments of a path in its hash.
pub const SEPARATOR: u64 = 256;

/// The hash `h` taken one value further.
pub open spec fn mix(h: u64, x: u64) -> u64 {
    (((h % MODULUS) * FACTOR + (x % MODULUS) + 1) % (MODULUS as int)) as u64
}

/// The hash `h` taken further over a byte string.
pub open spec fn hash_bytes(h: u64, s: Seq<u8>) -> u64
    decreases s.len(),
{
    if s.len() == 0 {
        h
    } else {
        mix(hash_bytes(h, s.drop_last()), s.last() as u64)
    }
}

/// The hash `h` taken further over the segments of a path.
pub open spec fn hash_path(h: u64, p: PathModel) -> u64
    decreases p.len(),
{
    if p.len() == 0 {
        h
    } else {
        mix(hash_bytes(hash_path(h, p.drop_last()), p.last()), SEPARATOR)
    }
}

/// The hash `h` taken further over a list of handles.
pub open spec fn hash_filters(h: u64, fs: Seq<Filter>) -> u64
    decreases fs.len(),
{
    if fs.len() == 0 {
        h
    } else {
        mix(hash_filters(h, fs.drop_last()), fs.last().id as u64)
    }
}

/// The hash of a content: equal contents have equal hashes.
#[verifier::opaque]
pub open spec fn node_hash(n: Node) -> u64 {
    match n {
        Node::Identity => 1,
        Node::Empty => 2,
        Node::Subdir(p) => hash_path(3, p),
        Node::Prefix(p) => hash_path(4, p),
        Node::Chain(a, b) => mix(mix(5, a.id as u64), b.id as u64),
        Node::Compose(fs) => hash_filters(6, fs),
        Node::Subtract(a, b) => mix(mix(7, a.id as u64), b.id as u64),
    }
}

/// The hash `h` taken one value further.
pub fn mixed(h: u64, x: u64) -> (r: u64)
    ensures
        r == mix(h, x),
{
    ((h % MODULUS) * FACTOR + (x % MODULUS) + 1) % MODULUS
}

/// The hash `h` taken further over a byte string.
pub fn bytes_hash(h: u64, s: &Vec<u8>) -> (r: u64)
    ensures
        r == hash_bytes(h, s@),
{
    let mut r = h;
    let mut i: usize = 0;
    while i < s.len()
        invariant
            i <= s.len(),
            r == hash_bytes(h, s@.take(i as int)),
        decreases s.len() - i,
    {
        assert(s@.take(i + 1).drop_last() =~= s@.take(i as int));
        r = mixed(r, s[i] as u64);
        i += 1;
    }
    assert(s@.take(s.len() as int) =~= s@);
    r
}

/// The hash `h` taken further over the segments of a path.
pub fn path_hash(h: u64, p: &Path) -> (r: u64)
    ensures
        r == hash_path(h, p@),
{
    let mut r = h;
    let mut i: usize = 0;
    while i < p.segments.len()
        invariant
            i <= p.segments.len(),
            r == hash_path(h, p@.take(i as int)),
        decreases p.segments.len() - i,
    {
        assert(p@.take(i + 1).drop_last() =~= p@.take(i as int));
        r = mixed(bytes_hash(r, &p.segments[i]), SEPARATOR);
        i += 1;
    }
    assert(p@.take(p.segments.len() as int) =~= p@);
    r
}

/// The hash `h` taken further over a list of handles.
pub fn filters_hash(h: u64, fs: &Vec<Filter>) -> (r: u64)
    ensures
        r == hash_filters(h, fs@),
{
    let mut r = h;
    let mut i: usize = 0;
    while i < fs.len()
        invariant
            i <= fs.len(),
            r == hash_filters(h, fs@.take(i as int)),
        decreases fs.len() - i,
    {
        assert(fs@.take(i + 1).drop_last() =~= fs@.take(i as int));
        r = mixed(r, fs[i].id as u64);
        i += 1;
    }
    assert(fs@.take(fs.len() as int) =~= fs@);
    r
}

/// The hash of a content.
pub fn op_hash(op: &Op) -> (r: u64)
    ensures
        r == node_hash(op@),
{
    reveal(node_hash);
    match op {
        Op::Identity => 1,
        Op::Empty => 2,
        Op::Subdir(p) => path_hash(3, p),
        Op::Prefix(p) => path_hash(4, p),
        Op::Chain(a, b) => mixed(mixed(5, a.id as u64), b.id as u64),
        Op::Compose(fs) => filters_hash(6, fs),
        Op::Subtract(a, b) => mixed(mixed(7, a.id as u64), b.id as u64),
    }
}

} // verus!
