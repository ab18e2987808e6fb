//! Structural facts about a transducer, kept as a set of bits.

use vstd::prelude::*;

verus! {

/// Every transition has equal input and output labels.
pub const ACCEPTOR_BIT: u64 = 16;
/// Some transition has different input and output labels.
pub const NOT_ACCEPTOR_BIT: u64 = 17;
/// No state has two transitions with the same input label.
pub const I_DETERMINISTIC_BIT: u64 = 18;
/// Some state has two transitions with the same input label.
pub const NOT_I_DETERMINISTIC_BIT: u64 = 19;
/// No state has two transitions with the same output label.
pub const O_DETERMINISTIC_BIT: u64 = 20;
/// Some state has two transitions with the same output label.
pub const NOT_O_DETERMINISTIC_BIT: u64 = 21;
/// Some transition has ε as both labels.
pub const EPSILONS_BIT: u64 = 22;
/// No transition has ε as both labels.
pub const NO_EPSILONS_BIT: u64 = 23;
/// Some transition has ε as input label.
pub const I_EPSILONS_BIT: u64 = 24;
/// No transition has ε as input label.
pub const NO_I_EPSILONS_BIT: u64 = 25;
/// Some transition has ε as output label.
pub const O_EPSILONS_BIT: u64 = 26;
/// No transition has ε as output label.
pub const NO_O_EPSILONS_BIT: u64 = 27;
/// The transitions of every state are in order of input label.
pub const I_LABEL_SORTED_BIT: u64 = 28;
/// The transitions of some state are not in order of input label.
pub const NOT_I_LABEL_SORTED_BIT: u64 = 29;
/// The transitions of every state are in order of output label.
pub const O_LABEL_SORTED_BIT: u64 = 30;
/// The transitions of some state are not in order of output label.
pub const NOT_O_LABEL_SORTED_BIT: u64 = 31;
/// Some transition or final weight is neither `0̄` nor `1̄`.
pub const WEIGHTED_BIT: u64 = 32;
/// Every transition and final weight is `0̄` or `1̄`.
pub const UNWEIGHTED_BIT: u64 = 33;
/// Some non-empty path returns to the state it left.
pub const CYCLIC_BIT: u64 = 34;
/// The states can be ranked so that every transition leads to a higher rank.
pub const ACYCLIC_BIT: u64 = 35;
/// Every transition leads to a state with a higher index.
pub const TOP_SORTED_BIT: u64 = 38;
/// Some transition leads to a state whose index is not higher.
pub const NOT_TOP_SORTED_BIT: u64 = 39;

pub const ACCEPTOR: u64 = 0x0000_0000_0001_0000;
pub const NOT_ACCEPTOR: u64 = 0x0000_0000_0002_0000;
pub const I_DETERMINISTIC: u64 = 0x0000_0000_0004_0000;
pub const NOT_I_DETERMINISTIC: u64 = 0x0000_0000_0008_0000;
pub const O_DETERMINISTIC: u64 = 0x0000_0000_0010_0000;
pub const NOT_O_DETERMINISTIC: u64 = 0x0000_0000_0020_0000;
pub const EPSILONS: u64 = 0x0000_0000_0040_0000;
pub const NO_EPSILONS: u64 = 0x0000_0000_0080_0000;
pub const I_EPSILONS: u64 = 0x0000_0000_0100_0000;
pub const NO_I_EPSILONS: u64 = 0x0000_0000_0200_0000;
pub const O_EPSILONS: u64 = 0x0000_0000_0400_0000;
pub const NO_O_EPSILONS: u64 = 0x0000_0000_0800_0000;
pub const I_LABEL_SORTED: u64 = 0x0000_0000_1000_0000;
pub const NOT_I_LABEL_SORTED: u64 = 0x0000_0000_2000_0000;
pub const O_LABEL_SORTED: u64 = 0x0000_0000_4000_0000;
pub const NOT_O_LABEL_SORTED: u64 = 0x0000_0000_8000_0000;
pub const WEIGHTED: u64 = 0x0000_0001_0000_0000;
pub const UNWEIGHTED: u64 = 0x0000_0002_0000_0000;
pub const CYCLIC: u64 = 0x0000_0004_0000_0000;
pub const ACYCLIC: u64 = 0x0000_0008_0000_0000;
pub const TOP_SORTED: u64 = 0x0000_0040_0000_0000;
pub const NOT_TOP_SORTED: u64 = 0x0000_0080_0000_0000;

/// The bits that this library gives a meaning.
pub const ALL_PROPERTIES: u64 = 0x0000_00cf_ffff_0000;

/// Whether bit `k` of `bits` is set.
pub open spec fn has_bit(bits: u64, k: u64) -> bool {
    k < 64 && (bits >> k) & 1 == 1
}

/// A set of property bits. A bit that is absent says nothing; both bits of a
/// pair may be absent, which means that the fact is not known.
#[derive(Clone, Copy, Debug, PartialEq, Eq, Structural, Hash, Default)]
pub struct FstProperties {
    pub bits: u64,
}

impl View for FstProperties {
    type V = Set<u64>;

    /// The positions of the bits that are set.
    open spec fn view(&self) -> Set<u64> {
        Set::new(|k: u64| has_bit(self.bits, k))
    }
}

impl FstProperties {
    pub fn new(bits: u64) -> (p: Self)
        ensures
            p.bits == bits,
    {
        FstProperties { bits }
    }

    pub fn bits(&self) -> (b: u64)
        ensures
            b == self.bits,
    {
        self.bits
    }

    pub fn empty() -> (p: Self)
        ensures
            p.bits == 0,
            p@ == Set::<u64>::empty(),
    {
        proof {
            assert forall|k: u64| !has_bit(0u64, k) by {
                assert(k < 64 ==> (0u64 >> k) & 1 == 0) by (bit_vector);
            }
            assert(FstProperties { bits: 0 }@ =~= Set::<u64>::empty());
        }
        FstProperties { bits: 0 }
    }

    pub fn all_properties() -> (p: Self)
        ensures
            p.bits == ALL_PROPERTIES,
    {
        FstProperties { bits: ALL_PROPERTIES }
    }

    /// Whether bit `k` is set.
    pub fn has(&self, k: u64) -> (b: bool)
        requires
            k < 64,
        ensures
            b == self@.contains(k),
    {
        (self.bits >> k) & 1 == 1
    }

    /// With bit `k` set.
    pub fn insert_bit(&self, k: u64) -> (p: Self)
        requires
            k < 64,
        ensures
            p@ == self@.insert(k),
    {
        proof {
            lemma_single_bit(k);
            lemma_union_bits(self.bits, 1u64 << k);
            assert(self@.union(set![k]) =~= self@.insert(k));
        }
        FstProperties { bits: self.bits | (1u64 << k) }
    }

    /// With bit `k` cleared.
    pub fn remove_bit(&self, k: u64) -> (p: Self)
        requires
            k < 64,
        ensures
            p@ == self@.remove(k),
    {
        proof {
            lemma_single_bit(k);
            lemma_difference_bits(self.bits, 1u64 << k);
            assert(self@.difference(set![k]) =~= self@.remove(k));
        }
        FstProperties { bits: self.bits & !(1u64 << k) }
    }

    /// With bit `k` set if `on`, cleared if not.
    pub fn set_bit(&self, k: u64, on: bool) -> (p: Self)
        requires
            k < 64,
        ensures
            p@ == if on {
                self@.insert(k)
            } else {
                self@.remove(k)
            },
    {
        if on {
            self.insert_bit(k)
        } else {
            self.remove_bit(k)
        }
    }

    /// Whether every bit of `other` is set in `self`.
    pub fn contains(&self, other: FstProperties) -> (b: bool)
        ensures
            b == other@.subset_of(self@),
    {
        proof {
            lemma_subset_bits(self.bits, other.bits);
        }
        self.bits & other.bits == other.bits
    }

    /// The bits of either.
    pub fn union(&self, other: FstProperties) -> (p: Self)
        ensures
            p.bits == self.bits | other.bits,
            p@ == self@.union(other@),
    {
        proof {
            lemma_union_bits(self.bits, other.bits);
        }
        FstProperties { bits: self.bits | other.bits }
    }

    /// The bits of both.
    pub fn intersection(&self, other: FstProperties) -> (p: Self)
        ensures
            p.bits == self.bits & other.bits,
            p@ == self@.intersect(other@),
    {
        proof {
            lemma_intersection_bits(self.bits, other.bits);
        }
        FstProperties { bits: self.bits & other.bits }
    }

    /// The bits of `self` that `other` lacks.
    pub fn difference(&self, other: FstProperties) -> (p: Self)
        ensures
            p.bits == self.bits & !other.bits,
            p@ == self@.difference(other@),
    {
        proof {
            lemma_difference_bits(self.bits, other.bits);
        }
        FstProperties { bits: self.bits & !other.bits }
    }

    /// `self` outside `mask`, `other` inside it.
    pub fn with_mask(&self, other: FstProperties, mask: FstProperties) -> (p: Self)
        ensures
            p@ == self@.difference(mask@).union(other@.intersect(mask@)),
    {
        let kept = self.difference(mask);
        let taken = other.intersection(mask);
        kept.union(taken)
    }
}

pub proof fn lemma_subset_bits(a: u64, b: u64)
    ensures
        (a & b == b) == (FstProperties { bits: b })@.subset_of((FstProperties { bits: a })@),
{
    if a & b == b {
        assert forall|k: u64| has_bit(b, k) implies has_bit(a, k) by {
            assert(k < 64 && a & b == b && (b >> k) & 1 == 1 ==> (a >> k) & 1 == 1)
                by (bit_vector);
        }
    } else {
        let c = b & !a;
        assert(a & b != b ==> b & !a != 0) by (bit_vector);
        if forall|k: u64| k < 64 ==> (c >> k) & 1 == 0 {
            lemma_no_bits_is_zero(c);
        }
        let k = choose|k: u64| k < 64 && (c >> k) & 1 != 0;
        assert(k < 64 && ((b & !a) >> k) & 1 != 0 ==> (b >> k) & 1 == 1 && (a >> k) & 1 != 1)
            by (bit_vector);
        assert(has_bit(b, k) && !has_bit(a, k));
        assert((FstProperties { bits: b })@.contains(k));
    }
}

proof fn lemma_low_bits_zero(x: u64, n: u64)
    requires
        1 <= n <= 64,
        forall|k: u64| k < 64 ==> (x >> k) & 1 == 0,
    ensures
        x << ((64 - n) as u64) == 0,
    decreases n,
{
    if n == 1 {
        assert((x >> 0u64) & 1 == 0);
        assert((x >> 0u64) & 1 == 0 ==> x << 63u64 == 0) by (bit_vector);
    } else {
        let m = (n - 1) as u64;
        lemma_low_bits_zero(x, m);
        assert((x >> m) & 1 == 0);
        let s = (64 - m) as u64;
        let t = (64 - n) as u64;
        assert(1 <= m <= 63 && s == 64 - m && t == 63 - m && x << s == 0 && (x >> m) & 1 == 0 ==> x
            << t == 0) by (bit_vector);
    }
}

proof fn lemma_no_bits_is_zero(x: u64)
    requires
        forall|k: u64| k < 64 ==> (x >> k) & 1 == 0,
    ensures
        x == 0,
{
    lemma_low_bits_zero(x, 64);
    assert(x << 0u64 == x) by (bit_vector);
}

pub proof fn lemma_union_bits(a: u64, b: u64)
    ensures
        (FstProperties { bits: a | b })@ == (FstProperties { bits: a })@.union(
            (FstProperties { bits: b })@,
        ),
{
    assert forall|k: u64| has_bit(a | b, k) == (has_bit(a, k) || has_bit(b, k)) by {
        assert(k < 64 ==> (((a | b) >> k) & 1 == 1) == ((a >> k) & 1 == 1 || (b >> k) & 1 == 1))
            by (bit_vector);
    }
    assert((FstProperties { bits: a | b })@ =~= (FstProperties { bits: a })@.union(
        (FstProperties { bits: b })@,
    ));
}

pub proof fn lemma_intersection_bits(a: u64, b: u64)
    ensures
        (FstProperties { bits: a & b })@ == (FstProperties { bits: a })@.intersect(
            (FstProperties { bits: b })@,
        ),
{
    assert forall|k: u64| has_bit(a & b, k) == (has_bit(a, k) && has_bit(b, k)) by {
        assert(k < 64 ==> (((a & b) >> k) & 1 == 1) == ((a >> k) & 1 == 1 && (b >> k) & 1 == 1))
            by (bit_vector);
    }
    assert((FstProperties { bits: a & b })@ =~= (FstProperties { bits: a })@.intersect(
        (FstProperties { bits: b })@,
    ));
}

pub proof fn lemma_difference_bits(a: u64, b: u64)
    ensures
        (FstProperties { bits: a & !b })@ == (FstProperties { bits: a })@.difference(
            (FstProperties { bits: b })@,
        ),
{
    assert forall|k: u64| has_bit(a & !b, k) == (has_bit(a, k) && !has_bit(b, k)) by {
        assert(k < 64 ==> (((a & !b) >> k) & 1 == 1) == ((a >> k) & 1 == 1 && (b >> k) & 1 != 1))
            by (bit_vector);
    }
    assert((FstProperties { bits: a & !b })@ =~= (FstProperties { bits: a })@.difference(
        (FstProperties { bits: b })@,
    ));
}

/// The one bit that `1 << k` sets.
pub proof fn lemma_single_bit(k: u64)
    requires
        k < 64,
    ensures
        (FstProperties { bits: 1u64 << k })@ == set![k],
{
    assert forall|j: u64| has_bit(1u64 << k, j) == (j == k) by {
        assert(k < 64 && j < 64 ==> ((((1u64 << k) >> j) & 1 == 1) == (j == k))) by (bit_vector);
    }
    assert((FstProperties { bits: 1u64 << k })@ =~= set![k]);
}

} // verus!
