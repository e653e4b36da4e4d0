//! Paths as ordered sequences of byte-string segments.
//!
//! A path is modelled by `Seq<Seq<u8>>`: the segments from the outermost
//! directory inwards. Joining is concatenation, and one path starts with
//! another when the other is a prefix of its segments.

use vstd::prelude::*;

verus! {

/// The model of a path: its segments, outermost first.
pub type PathModel = Seq<Seq<u8>>;

/// Lexicographic order on byte strings: a proper prefix comes first,
/// otherwise the first differing byte decides.
pub open spec fn bytes_lt(a: Seq<u8>, b: Seq<u8>) -> bool
    decreases a.len(),
{
    if b.len() == 0 {
        false
    } else if a.len() == 0 {
        true
    } else if a[0] != b[0] {
        a[0] < b[0]
    } else {
        bytes_lt(a.skip(1), b.skip(1))
    }
}

/// Lexicographic order on paths, segment by segment, each segment ordered
/// by `bytes_lt`.
pub open spec fn path_lt(a: PathModel, b: PathModel) -> bool
    decreases a.len(),
{
    if b.len() == 0 {
        false
    } else if a.len() == 0 {
        true
    } else if a[0] != b[0] {
        bytes_lt(a[0], b[0])
    } else {
        path_lt(a.skip(1), b.skip(1))
    }
}

/// The order on byte strings is asymmetric.
pub proof fn lemma_bytes_lt_asymmetric(a: Seq<u8>, b: Seq<u8>)
    requires
        bytes_lt(a, b),
    ensures
        !bytes_lt(b, a),
    decreases a.len(),
{
    if a.len() > 0 && b.len() > 0 && a[0] == b[0] {
        lemma_bytes_lt_asymmetric(a.skip(1), b.skip(1));
    }
}

/// The order on paths is asymmetric.
pub proof fn lemma_path_lt_asymmetric(a: PathModel, b: PathModel)
    requires
        path_lt(a, b),
    ensures
        !path_lt(b, a),
    decreases a.len(),
{
    if a.len() > 0 && b.len() > 0 {
        if a[0] == b[0] {
            lemma_path_lt_asymmetric(a.skip(1), b.skip(1));
        } else {
            lemma_bytes_lt_asymmetric(a[0], b[0]);
        }
    }
}

/// Two paths are related when one of them starts with the other.
pub open spec fn prefix_related(a: PathModel, b: PathModel) -> bool {
    a.is_prefix_of(b) || b.is_prefix_of(a)
}

/// The model of a vector of byte strings.
pub open spec fn segments_model(v: Seq<Vec<u8>>) -> PathModel {
    Seq::new(v.len(), |i: int| v[i]@)
}

/// A relative path.
#[derive(Debug)]
pub struct Path {
    pub segments: Vec<Vec<u8>>,
}

impl View for Path {
    type V = PathModel;

    open spec fn view(&self) -> PathModel {
        segments_model(self.segments@)
    }
}

/// Copies a byte string.
pub fn copy_bytes(src: &Vec<u8>) -> (out: Vec<u8>)
    ensures
        out@ == src@,
{
    let mut out: Vec<u8> = Vec::new();
    let mut i: usize = 0;
    while i < src.len()
        invariant
            i <= src.len(),
            out@ == src@.take(i as int),
        decreases src.len() - i,
    {
        out.push(src[i]);
        i += 1;
    }
    out
}

/// Whether two byte strings hold the same bytes.
pub fn bytes_eq(a: &Vec<u8>, b: &Vec<u8>) -> (r: bool)
    ensures
        r == (a@ == b@),
{
    if a.len() != b.len() {
        return false;
    }
    let mut i: usize = 0;
    while i < a.len()
        invariant
            i <= a.len(),
            a.len() == b.len(),
            a@.take(i as int) == b@.take(i as int),
        decreases a.len() - i,
    {
        if a[i] != b[i] {
            return false;
        }
        i += 1;
    }
    assert(a@.take(a.len() as int) =~= a@);
    assert(b@.take(b.len() as int) =~= b@);
    true
}

/// Whether byte string `a` sorts strictly before `b`.
pub fn bytes_less(a: &Vec<u8>, b: &Vec<u8>) -> (r: bool)
    ensures
        r == bytes_lt(a@, b@),
{
    let mut i: usize = 0;
    assert(a@.skip(0) =~= a@ && b@.skip(0) =~= b@);
    while i < a.len() && i < b.len()
        invariant
            i <= a.len(),
            i <= b.len(),
            bytes_lt(a@, b@) == bytes_lt(a@.skip(i as int), b@.skip(i as int)),
        decreases a.len() - i,
    {
        if a[i] != b[i] {
            return a[i] < b[i];
        }
        assert(a@.skip(i as int).skip(1) =~= a@.skip(i + 1));
        assert(b@.skip(i as int).skip(1) =~= b@.skip(i + 1));
        i += 1;
    }
    i < b.len()
}

impl Path {
    /// The empty path.
    pub fn new() -> (p: Path)
        ensures
            p@ == PathModel::empty(),
    {
        let p = Path { segments: Vec::new() };
        p
    }

    /// The path made of the given segments, outermost first.
    pub fn from_segments(segments: Vec<Vec<u8>>) -> (p: Path)
        ensures
            p@ == segments_model(segments@),
    {
        Path { segments }
    }

    /// The number of segments.
    pub fn len(&self) -> (n: usize)
        ensures
            n == self@.len(),
    {
        self.segments.len()
    }

    /// A path with the same segments.
    pub fn copy(&self) -> (p: Path)
        ensures
            p@ == self@,
    {
        let mut segments: Vec<Vec<u8>> = Vec::new();
        let mut i: usize = 0;
        while i < self.segments.len()
            invariant
                i <= self.segments.len(),
                segments.len() == i,
                forall|k: int| 0 <= k < i ==> segments@[k]@ == self.segments@[k]@,
            decreases self.segments.len() - i,
        {
            let s = copy_bytes(&self.segments[i]);
            segments.push(s);
            i += 1;
        }
        let p = Path { segments };
        p
    }

    /// Whether both paths have the same segments.
    pub fn same(&self, other: &Path) -> (r: bool)
        ensures
            r == (self@ == other@),
    {
        if self.segments.len() != other.segments.len() {
            return false;
        }
        let mut i: usize = 0;
        while i < self.segments.len()
            invariant
                i <= self.segments.len(),
                self.segments.len() == other.segments.len(),
                self@.take(i as int) == other@.take(i as int),
            decreases self.segments.len() - i,
        {
            if !bytes_eq(&self.segments[i], &other.segments[i]) {
                assert(self@[i as int] != other@[i as int]);
                return false;
            }
            i += 1;
        }
        assert(self@.take(self.segments.len() as int) =~= self@);
        assert(other@.take(other.segments.len() as int) =~= other@);
        true
    }

    /// `self` followed by `tail`.
    pub fn join(&self, tail: &Path) -> (p: Path)
        ensures
            p@ == self@ + tail@,
    {
        let mut p = self.copy();
        assert(p@.len() == self@.len());
        assert forall|k: int| 0 <= k < self.segments.len() implies p.segments@[k]@
            == self.segments@[k]@ by {
            assert(p@[k] == self@[k]);
        }
        let mut i: usize = 0;
        while i < tail.segments.len()
            invariant
                i <= tail.segments.len(),
                p.segments.len() == self.segments.len() + i,
                forall|k: int| 0 <= k < self.segments.len() ==> p.segments@[k]@ == self.segments@[k]@,
                forall|k: int|
                    0 <= k < i ==> p.segments@[self.segments.len() + k]@ == tail.segments@[k]@,
            decreases tail.segments.len() - i,
        {
            let s = copy_bytes(&tail.segments[i]);
            p.segments.push(s);
            i += 1;
        }
        p
    }

    /// Whether `base` is a prefix of `self`.
    pub fn starts_with(&self, base: &Path) -> (r: bool)
        ensures
            r == base@.is_prefix_of(self@),
    {
        if base.segments.len() > self.segments.len() {
            return false;
        }
        let mut i: usize = 0;
        while i < base.segments.len()
            invariant
                i <= base.segments.len(),
                base.segments.len() <= self.segments.len(),
                forall|k: int| 0 <= k < i ==> base@[k] == self@[k],
            decreases base.segments.len() - i,
        {
            if !bytes_eq(&base.segments[i], &self.segments[i]) {
                assert(base@[i as int] != self@[i as int]);
                return false;
            }
            i += 1;
        }
        true
    }

    /// Whether `self` sorts strictly before `other`.
    pub fn less(&self, other: &Path) -> (r: bool)
        ensures
            r == path_lt(self@, other@),
    {
        let mut i: usize = 0;
        assert(self@.skip(0) =~= self@ && other@.skip(0) =~= other@);
        while i < self.segments.len() && i < other.segments.len()
            invariant
                i <= self.segments.len(),
                i <= other.segments.len(),
                path_lt(self@, other@) == path_lt(self@.skip(i as int), other@.skip(i as int)),
            decreases self.segments.len() - i,
        {
            if !bytes_eq(&self.segments[i], &other.segments[i]) {
                return bytes_less(&self.segments[i], &other.segments[i]);
            }
            assert(self@.skip(i as int).skip(1) =~= self@.skip(i + 1));
            assert(other@.skip(i as int).skip(1) =~= other@.skip(i + 1));
            i += 1;
        }
        i < other.segments.len()
    }

    /// The path made of the first segment alone.
    pub fn head(&self) -> (p: Path)
        requires
            self@.len() > 0,
        ensures
            p@ == self@.take(1),
    {
        let mut segments: Vec<Vec<u8>> = Vec::new();
        segments.push(copy_bytes(&self.segments[0]));
        let p = Path { segments };
        p
    }

    /// The path without its first segment.
    pub fn tail(&self) -> (p: Path)
        requires
            self@.len() > 0,
        ensures
            p@ == self@.skip(1),
    {
        let mut segments: Vec<Vec<u8>> = Vec::new();
        let mut i: usize = 1;
        while i < self.segments.len()
            invariant
                1 <= i <= self.segments.len(),
                segments.len() == i - 1,
                forall|k: int| 0 <= k < i - 1 ==> segments@[k]@ == self.segments@[k + 1]@,
            decreases self.segments.len() - i,
        {
            let s = copy_bytes(&self.segments[i]);
            segments.push(s);
            i += 1;
        }
        let p = Path { segments };
        p
    }
}

} // verus!
