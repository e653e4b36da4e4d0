//! Identifiers of history nodes, and a map between them.

use vstd::prelude::*;

verus! {

/// The 160-bit identifier of a node: the first 32 bits and the other 128.
/// The identifier of all zeros stands for "no node".
#[derive(Clone, Copy, PartialEq, Eq, Structural, Debug, Hash)]
pub struct Oid {
    pub hi: u32,
    pub lo: u128,
}

/// The identifier that stands for "no node".
pub open spec fn zero_oid() -> Oid {
    Oid { hi: 0, lo: 0 }
}

/// The number that the bytes spell, most significant byte first.
pub open spec fn be_value(s: Seq<u8>) -> nat
    decreases s.len(),
{
    if s.len() == 0 {
        0
    } else {
        be_value(s.drop_last()) * 256 + s.last() as nat
    }
}

/// 256 to the power of `n`.
pub open spec fn pow256(n: nat) -> nat
    decreases n,
{
    if n == 0 {
        1
    } else {
        256 * pow256((n - 1) as nat)
    }
}

/// Four bytes spell a number below two to the 32nd, sixteen bytes one
/// below two to the 128th.
pub proof fn lemma_pow256_widths()
    ensures
        pow256(4) == 0x1_0000_0000,
        pow256(16) == 0x1_0000_0000_0000_0000_0000_0000_0000_0000,
{
    reveal_with_fuel(pow256, 17);
}

/// The powers of 256 do not fall.
pub proof fn lemma_pow256_rises(a: nat, b: nat)
    requires
        a <= b,
    ensures
        pow256(a) <= pow256(b),
        pow256(a) >= 1,
    decreases b,
{
    if a < b {
        lemma_pow256_rises(a, (b - 1) as nat);
    } else if a > 0 {
        lemma_pow256_rises((a - 1) as nat, (a - 1) as nat);
    }
}

/// Bytes spell a number below 256 to the power of their count.
pub proof fn lemma_be_value_bound(s: Seq<u8>)
    ensures
        be_value(s) < pow256(s.len()),
    decreases s.len(),
{
    if s.len() > 0 {
        lemma_be_value_bound(s.drop_last());
    }
}

/// A byte before others counts 256 to the power of their count.
pub proof fn lemma_be_value_prepend(b: u8, s: Seq<u8>)
    ensures
        be_value(seq![b] + s) == b * pow256(s.len()) + be_value(s),
    decreases s.len(),
{
    if s.len() == 0 {
        assert(seq![b].drop_last() =~= Seq::<u8>::empty());
        assert(be_value(seq![b]) == be_value(Seq::<u8>::empty()) * 256 + b as nat);
        assert(pow256(0) == 1);
    } else {
        lemma_be_value_prepend(b, s.drop_last());
        assert((seq![b] + s).drop_last() =~= seq![b] + s.drop_last());
        let p = pow256(s.drop_last().len());
        let v = be_value(s.drop_last());
        assert((b * p + v) * 256 == b * (256 * p) + v * 256) by (nonlinear_arith);
    }
}

/// Byte strings of one length that spell one number are the same.
pub proof fn lemma_be_value_injective(a: Seq<u8>, b: Seq<u8>)
    requires
        a.len() == b.len(),
        be_value(a) == be_value(b),
    ensures
        a == b,
    decreases a.len(),
{
    if a.len() > 0 {
        lemma_be_value_injective(a.drop_last(), b.drop_last());
        assert(a =~= a.drop_last().push(a.last()));
    }
}

/// The twenty bytes spell the identifier: the first four its first 32
/// bits, the other sixteen the rest, most significant byte first.
pub open spec fn spells(bytes: Seq<u8>, id: Oid) -> bool {
    &&& bytes.len() == 20
    &&& be_value(bytes.subrange(0, 4)) == id.hi
    &&& be_value(bytes.subrange(4, 20)) == id.lo
}

/// An identifier is spelt in one way only.
pub proof fn lemma_spelt_one_way(id: Oid, a: Seq<u8>, b: Seq<u8>)
    requires
        spells(a, id),
        spells(b, id),
    ensures
        a == b,
{
    lemma_be_value_injective(a.subrange(0, 4), b.subrange(0, 4));
    lemma_be_value_injective(a.subrange(4, 20), b.subrange(4, 20));
    assert(a =~= a.subrange(0, 4) + a.subrange(4, 20));
    assert(b =~= b.subrange(0, 4) + b.subrange(4, 20));
}

impl Oid {
    /// The identifier with the given first 32 and last 128 bits.
    pub fn new(hi: u32, lo: u128) -> (id: Oid)
        ensures
            id == (Oid { hi, lo }),
    {
        Oid { hi, lo }
    }

    /// The identifier that stands for "no node".
    pub fn zero() -> (id: Oid)
        ensures
            id == zero_oid(),
    {
        Oid { hi: 0, lo: 0 }
    }

    /// The identifier that the twenty bytes spell: its first 32 bits from
    /// the first four, its other 128 from the rest, most significant byte
    /// first.
    pub fn from_bytes(bytes: &[u8; 20]) -> (id: Oid)
        ensures
            spells(bytes@, id),
    {
        proof {
            lemma_pow256_widths();
        }
        let mut hi: u32 = 0;
        let mut i: usize = 0;
        while i < 4
            invariant
                i <= 4,
                hi == be_value(bytes@.subrange(0, i as int)),
                pow256(4) == 0x1_0000_0000,
            decreases 4 - i,
        {
            proof {
                let part = bytes@.subrange(0, i + 1);
                assert(part.drop_last() =~= bytes@.subrange(0, i as int));
                lemma_be_value_bound(part);
                lemma_pow256_rises((i + 1) as nat, 4);
            }
            hi = hi * 256 + bytes[i] as u32;
            i += 1;
        }
        let mut lo: u128 = 0;
        let mut k: usize = 0;
        while k < 16
            invariant
                k <= 16,
                lo == be_value(bytes@.subrange(4, 4 + k)),
                pow256(16) == 0x1_0000_0000_0000_0000_0000_0000_0000_0000,
            decreases 16 - k,
        {
            proof {
                let part = bytes@.subrange(4, 4 + k + 1);
                assert(part.drop_last() =~= bytes@.subrange(4, 4 + k));
                lemma_be_value_bound(part);
                lemma_pow256_rises((k + 1) as nat, 16);
            }
            lo = lo * 256 + bytes[4 + k] as u128;
            k += 1;
        }
        Oid { hi, lo }
    }

    /// The twenty bytes that spell the identifier.
    /// They are the only bytes that do, so that reading what was written,
    /// and writing what was read, gives what one began with.
    pub fn to_bytes(&self) -> (bytes: [u8; 20])
        ensures
            spells(bytes@, *self),
            forall|other: Seq<u8>| spells(other, *self) ==> other == bytes@,
    {
        proof {
            lemma_pow256_widths();
        }
        let mut bytes: [u8; 20] = [0u8; 20];
        let mut rest: u128 = self.lo;
        let mut k: usize = 0;
        assert(pow256(0) == 1);
        while k < 16
            invariant
                k <= 16,
                self.lo == rest * pow256(k as nat) + be_value(bytes@.subrange(20 - k, 20)),
            decreases 16 - k,
        {
            let b = (rest % 256) as u8;
            let ghost before = bytes@;
            bytes[19 - k] = b;
            rest = rest / 256;
            proof {
                let tail = before.subrange(20 - k, 20);
                assert(bytes@.subrange(19 - k, 20) =~= seq![b] + tail);
                lemma_be_value_prepend(b, tail);
                let p = pow256(k as nat);
                let v = be_value(tail);
                assert((rest * 256 + b) * p + v == rest * (256 * p) + (b * p + v))
                    by (nonlinear_arith);
            }
            k += 1;
        }
        proof {
            let p = pow256(16);
            let v = be_value(bytes@.subrange(4, 20));
            assert(rest == 0) by (nonlinear_arith)
                requires
                    self.lo == rest * p + v,
                    self.lo < p,
                    v >= 0,
                    rest >= 0,
                    p > 0,
            ;
        }
        let mut left: u32 = self.hi;
        let mut j: usize = 0;
        while j < 4
            invariant
                j <= 4,
                self.hi == left * pow256(j as nat) + be_value(bytes@.subrange(4 - j, 4)),
                be_value(bytes@.subrange(4, 20)) == self.lo,
            decreases 4 - j,
        {
            let b = (left % 256) as u8;
            let ghost before = bytes@;
            bytes[3 - j] = b;
            left = left / 256;
            proof {
                let tail = before.subrange(4 - j, 4);
                assert(bytes@.subrange(3 - j, 4) =~= seq![b] + tail);
                assert(bytes@.subrange(4, 20) =~= before.subrange(4, 20));
                lemma_be_value_prepend(b, tail);
                let p = pow256(j as nat);
                let v = be_value(tail);
                assert((left * 256 + b) * p + v == left * (256 * p) + (b * p + v))
                    by (nonlinear_arith);
            }
            j += 1;
        }
        proof {
            let p = pow256(4);
            let v = be_value(bytes@.subrange(0, 4));
            assert(left == 0) by (nonlinear_arith)
                requires
                    self.hi == left * p + v,
                    self.hi < p,
                    v >= 0,
                    left >= 0,
                    p > 0,
            ;
            assert forall|other: Seq<u8>| spells(other, *self) implies other == bytes@ by {
                lemma_spelt_one_way(*self, other, bytes@);
            }
        }
        bytes
    }

    /// Whether this is the identifier that stands for "no node".
    pub fn is_zero(&self) -> (r: bool)
        ensures
            r == (*self == zero_oid()),
    {
        self.hi == 0 && self.lo == 0
    }
}

/// A map from identifiers to identifiers, kept as a list of entries with
/// distinct keys.
pub struct OriginMap {
    pub keys: Vec<Oid>,
    pub values: Vec<Oid>,
}

impl View for OriginMap {
    type V = Map<Oid, Oid>;

    open spec fn view(&self) -> Map<Oid, Oid> {
        Map::new(
            |k: Oid| self.keys@.contains(k),
            |k: Oid| self.values@[self.keys@.index_of(k)],
        )
    }
}

impl OriginMap {
    /// As many values as keys, and no key twice.
    pub open spec fn wf(&self) -> bool {
        &&& self.keys@.len() == self.values@.len()
        &&& self.keys@.no_duplicates()
    }

    /// An empty map.
    pub fn new() -> (m: OriginMap)
        ensures
            m.wf(),
            m@ == Map::<Oid, Oid>::empty(),
    {
        let m = OriginMap { keys: Vec::new(), values: Vec::new() };
        m
    }

    /// Whether the map is well formed.
    pub fn check(&self) -> (r: bool)
        ensures
            r == self.wf(),
    {
        if self.keys.len() != self.values.len() {
            return false;
        }
        let mut i: usize = 0;
        while i < self.keys.len()
            invariant
                i <= self.keys.len(),
                forall|a: int, b: int| 0 <= a < b < i ==> self.keys@[a] != self.keys@[b],
            decreases self.keys.len() - i,
        {
            let mut j: usize = 0;
            while j < i
                invariant
                    j <= i,
                    i < self.keys.len(),
                    forall|a: int| 0 <= a < j ==> self.keys@[a] != self.keys@[i as int],
                decreases i - j,
            {
                if self.keys[j] == self.keys[i] {
                    return false;
                }
                j += 1;
            }
            i += 1;
        }
        true
    }

    /// The position of `key` among the keys.
    fn position(&self, key: Oid) -> (r: Option<usize>)
        requires
            self.wf(),
        ensures
            match r {
                Some(i) => i < self.keys@.len() && self.keys@[i as int] == key
                    && self.keys@.index_of(key) == i,
                None => !self.keys@.contains(key),
            },
    {
        let mut i: usize = 0;
        while i < self.keys.len()
            invariant
                i <= self.keys.len(),
                self.wf(),
                forall|k: int| 0 <= k < i ==> self.keys@[k] != key,
            decreases self.keys.len() - i,
        {
            if self.keys[i] == key {
                return Some(i);
            }
            i += 1;
        }
        None
    }

    /// The value recorded for `key`, if there is one.
    pub fn get(&self, key: Oid) -> (r: Option<Oid>)
        requires
            self.wf(),
        ensures
            r == (if self@.contains_key(key) {
                Some(self@[key])
            } else {
                None
            }),
    {
        match self.position(key) {
            Some(i) => Some(self.values[i]),
            None => None,
        }
    }

    /// Records `value` for `key`, in place of any earlier value.
    pub fn insert(&mut self, key: Oid, value: Oid)
        requires
            old(self).wf(),
        ensures
            final(self).wf(),
            final(self)@ == old(self)@.insert(key, value),
    {
        match self.position(key) {
            Some(i) => {
                self.values.set(i, value);
                assert(self@ =~= old(self)@.insert(key, value));
            },
            None => {
                self.keys.push(key);
                self.values.push(value);
                let ghost n = old(self).keys@.len() as int;
                assert(self@ =~= old(self)@.insert(key, value)) by {
                    assert forall|k: Oid| self@.contains_key(k) <==> old(self)@.insert(
                        key,
                        value,
                    ).contains_key(k) by {
                        if old(self).keys@.contains(k) {
                            let j = old(self).keys@.index_of(k);
                            assert(self.keys@[j] == k);
                        }
                        if k == key {
                            assert(self.keys@[n] == key);
                        }
                    }
                }
            },
        }
    }
}

} // verus!
