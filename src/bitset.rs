//! Sets of indices below 64, held in one `u64` word.

use vstd::prelude::*;

verus! {

/// Whether bit `i` of `x` is set.
pub open spec fn bit_of(x: u64, i: int) -> bool {
    0 <= i < 64 && (x >> (i as u64)) & 1u64 == 1u64
}

/// The indices whose bits are set in `x`.
pub open spec fn bits_of(x: u64) -> Set<int> {
    Set::new(|i: int| bit_of(x, i))
}

/// The indices below `n` whose bits are set in `x`.
pub open spec fn bits_below(x: u64, n: int) -> Set<int> {
    Set::new(|i: int| i < n && bit_of(x, i))
}

/// The inclusive range of integers `[lo, hi]`.
pub open spec fn index_range(lo: int, hi: int) -> Set<int> {
    Set::new(|i: int| lo <= i <= hi)
}

proof fn lemma_bit_or(x: u64, y: u64, j: u64)
    requires
        j < 64,
    ensures
        ((x | y) >> j) & 1u64 == 1u64 <==> ((x >> j) & 1u64 == 1u64 || (y >> j) & 1u64 == 1u64),
{
    assert(((x | y) >> j) & 1u64 == 1u64 <==> ((x >> j) & 1u64 == 1u64 || (y >> j) & 1u64
        == 1u64)) by (bit_vector)
        requires
            j < 64,
    ;
}

proof fn lemma_bit_and(x: u64, y: u64, j: u64)
    requires
        j < 64,
    ensures
        ((x & y) >> j) & 1u64 == 1u64 <==> ((x >> j) & 1u64 == 1u64 && (y >> j) & 1u64 == 1u64),
{
    assert(((x & y) >> j) & 1u64 == 1u64 <==> ((x >> j) & 1u64 == 1u64 && (y >> j) & 1u64
        == 1u64)) by (bit_vector)
        requires
            j < 64,
    ;
}

proof fn lemma_bit_single(i: u64, j: u64)
    requires
        i < 64,
        j < 64,
    ensures
        ((1u64 << i) >> j) & 1u64 == 1u64 <==> i == j,
        ((!(1u64 << i)) >> j) & 1u64 == 1u64 <==> i != j,
{
    assert(((1u64 << i) >> j) & 1u64 == 1u64 <==> i == j) by (bit_vector)
        requires
            i < 64,
            j < 64,
    ;
    assert(((!(1u64 << i)) >> j) & 1u64 == 1u64 <==> i != j) by (bit_vector)
        requires
            i < 64,
            j < 64,
    ;
}

/// The word of `x | y` holds the union of the two sets.
pub proof fn lemma_bits_or(x: u64, y: u64)
    ensures
        bits_of(x | y) == bits_of(x) + bits_of(y),
{
    assert forall|j: int| bits_of(x | y).contains(j) <==> (bits_of(x) + bits_of(y)).contains(j) by {
        if 0 <= j < 64 {
            lemma_bit_or(x, y, j as u64);
        }
    }
    assert(bits_of(x | y) =~= bits_of(x) + bits_of(y));
}

/// The word of `x & y` holds the intersection of the two sets.
pub proof fn lemma_bits_and(x: u64, y: u64)
    ensures
        bits_of(x & y) == bits_of(x).intersect(bits_of(y)),
{
    assert forall|j: int| bits_of(x & y).contains(j) <==> bits_of(x).intersect(
        bits_of(y),
    ).contains(j) by {
        if 0 <= j < 64 {
            lemma_bit_and(x, y, j as u64);
        }
    }
    assert(bits_of(x & y) =~= bits_of(x).intersect(bits_of(y)));
}

/// A single shifted bit is the singleton set.
pub proof fn lemma_bits_single(i: u64)
    requires
        i < 64,
    ensures
        bits_of(1u64 << i) == set![i as int],
        bits_of(!(1u64 << i)) == index_range(0, 63).remove(i as int),
{
    assert forall|j: int| bits_of(1u64 << i).contains(j) <==> set![i as int].contains(j) by {
        if 0 <= j < 64 {
            lemma_bit_single(i, j as u64);
        }
    }
    assert(bits_of(1u64 << i) =~= set![i as int]);
    assert forall|j: int|
        bits_of(!(1u64 << i)).contains(j) <==> index_range(0, 63).remove(i as int).contains(j) by {
        if 0 <= j < 64 {
            lemma_bit_single(i, j as u64);
        }
    }
    assert(bits_of(!(1u64 << i)) =~= index_range(0, 63).remove(i as int));
}

/// Only the zero word holds the empty set.
pub proof fn lemma_bits_empty(x: u64)
    ensures
        x == 0 <==> bits_of(x) == Set::<int>::empty(),
        x == 0xffff_ffff_ffff_ffffu64 ==> bits_of(x) == index_range(0, 63),
{
    if x == 0 {
        assert forall|j: u64| j < 64 implies (x >> j) & 1u64 != 1u64 by {
            assert((0u64 >> j) & 1u64 == 0u64) by (bit_vector);
        }
        assert(bits_of(x) =~= Set::<int>::empty());
    } else {
        let t = x.trailing_zeros();
        assert(bits_of(x).contains(t as int));
    }
    if x == 0xffff_ffff_ffff_ffffu64 {
        assert forall|j: u64| j < 64 implies (x >> j) & 1u64 == 1u64 by {
            assert(j < 64 ==> (0xffff_ffff_ffff_ffffu64 >> j) & 1u64 == 1u64) by (bit_vector);
        }
        assert(bits_of(x) =~= index_range(0, 63));
    }
}

/// A word other than zero holds its lowest bit.
pub proof fn lemma_bits_nonzero(x: u64)
    requires
        x != 0,
    ensures
        bits_of(x).contains(x.trailing_zeros() as int),
{
}

/// The sets of words are finite, and bounded by 64.
pub proof fn lemma_bits_finite(x: u64, n: int)
    requires
        0 <= n <= 64,
    ensures
        bits_below(x, n).finite(),
        bits_below(x, n).len() <= n,
        bits_of(x).finite(),
        bits_of(x).len() <= 64,
{
    vstd::set_lib::lemma_int_range(0, n);
    assert(bits_below(x, n).subset_of(vstd::set_lib::set_int_range(0, n)));
    vstd::set_lib::lemma_len_subset(bits_below(x, n), vstd::set_lib::set_int_range(0, n));
    vstd::set_lib::lemma_int_range(0, 64);
    assert(bits_of(x).subset_of(vstd::set_lib::set_int_range(0, 64)));
    vstd::set_lib::lemma_len_subset(bits_of(x), vstd::set_lib::set_int_range(0, 64));
}

/// An integer in `[0, 64)`: a position in a bit set.
#[derive(Clone, Copy, Debug, PartialEq, Eq, PartialOrd, Ord, Hash, Structural)]
pub struct BitSetIndex(u8);

impl View for BitSetIndex {
    type V = int;

    closed spec fn view(&self) -> int {
        self.0 as int
    }
}

impl BitSetIndex {
    #[verifier::type_invariant]
    closed spec fn in_bound(self) -> bool {
        self.0 < 64
    }

    /// The index `u`, when it is below 64.
    pub fn new(u: usize) -> (r: Option<Self>)
        ensures
            r is Some <==> u < 64,
            r is Some ==> r->0@ == u,
    {
        if u < 64 {
            Some(BitSetIndex(u as u8))
        } else {
            None
        }
    }

    /// The index `u`, which the caller knows to be below 64.
    pub fn unsafe_new(u: u8) -> (r: Self)
        requires
            u < 64,
        ensures
            r@ == u,
    {
        BitSetIndex(u)
    }

    pub fn get(self) -> (r: usize)
        ensures
            r == self@,
            r < 64,
    {
        proof {
            use_type_invariant(self);
        }
        self.0 as usize
    }

    pub fn value(self) -> (r: usize)
        ensures
            r == self@,
            r < 64,
    {
        self.get()
    }

    /// The sum of two indices, when it is below 64.
    pub fn checked_add(self, other: Self) -> (r: Option<Self>)
        ensures
            r is Some <==> self@ + other@ < 64,
            r is Some ==> r->0@ == self@ + other@,
    {
        proof {
            use_type_invariant(self);
            use_type_invariant(other);
        }
        BitSetIndex::new(self.0 as usize + other.0 as usize)
    }

    pub(crate) fn shift(self) -> (r: u64)
        ensures
            r < 64,
            r == self@,
    {
        proof {
            use_type_invariant(self);
        }
        self.0 as u64
    }
}


/// The indices that a sequence holds.
pub open spec fn index_set(items: Seq<usize>) -> Set<int> {
    Set::new(|i: int| exists|k: int| 0 <= k < items.len() && items[k] == i)
}

/// The indices that some set of a sequence holds.
pub open spec fn union_of(sets: Seq<NonEmptyBitSet>) -> Set<int> {
    Set::new(|i: int| exists|k: int| 0 <= k < sets.len() && sets[k]@.contains(i))
}

/// `m` is the least element of `s`.
pub open spec fn is_least(s: Set<int>, m: int) -> bool {
    s.contains(m) && forall|j: int| s.contains(j) ==> m <= j
}

/// `m` is the greatest element of `s`.
pub open spec fn is_greatest(s: Set<int>, m: int) -> bool {
    s.contains(m) && forall|j: int| s.contains(j) ==> j <= m
}

proof fn lemma_shift_bits(x: u64, i: u64, k: u64)
    requires
        i < 64,
        k < 64,
    ensures
        i + k < 64 ==> (((x >> i) >> k) & 1u64 == 1u64 <==> (x >> ((i + k) as u64)) & 1u64 == 1u64),
        i + k >= 64 ==> ((x >> i) >> k) & 1u64 == 0u64,
{
    assert(i + k < 64 ==> (((x >> i) >> k) & 1u64 == 1u64 <==> (x >> ((i + k) as u64)) & 1u64 == 1u64))
        by (bit_vector)
        requires
            i < 64,
            k < 64,
    ;
    assert(i + k >= 64 ==> ((x >> i) >> k) & 1u64 == 0u64) by (bit_vector)
        requires
            i < 64,
            k < 64,
    ;
}

/// The number of indices in the word: the size of its set.
fn count_bits(x: u64) -> (r: usize)
    ensures
        r == bits_of(x).len(),
        r <= 64,
{
    let mut count: usize = 0;
    let mut i: u64 = 0;
    assert(bits_below(x, 0) =~= Set::<int>::empty());
    while i < 64
        invariant
            i <= 64,
            count == bits_below(x, i as int).len(),
            count <= i,
        decreases 64 - i,
    {
        proof {
            lemma_bits_finite(x, i as int);
        }
        if (x >> i) & 1u64 == 1u64 {
            assert(bits_below(x, i + 1) =~= bits_below(x, i as int).insert(i as int));
            count = count + 1;
        } else {
            assert(bits_below(x, i + 1) =~= bits_below(x, i as int));
        }
        i = i + 1;
    }
    assert(bits_below(x, 64) =~= bits_of(x));
    count
}

/// A set of indices below 64 that is never empty.
#[derive(Clone, Copy, Debug, PartialEq, Eq, PartialOrd, Ord, Hash, Structural)]
pub struct NonEmptyBitSet(u64);

impl View for NonEmptyBitSet {
    type V = Set<int>;

    closed spec fn view(&self) -> Set<int> {
        bits_of(self.0)
    }
}

impl NonEmptyBitSet {
    #[verifier::type_invariant]
    closed spec fn non_empty(self) -> bool {
        self.0 != 0
    }

    /// The set that holds `i` alone.
    pub fn new(i: BitSetIndex) -> (r: Self)
        ensures
            r@ == set![i@],
    {
        let b = i.shift();
        proof {
            lemma_bits_single(b);
            lemma_bits_empty(1u64 << b);
            assert(bits_of(1u64 << b).contains(b as int));
        }
        NonEmptyBitSet(1u64 << b)
    }

    /// The set of the given indices; none when one of them is 64 or more, or
    /// when there are none.
    pub fn from_items(items: &[usize]) -> (r: Option<Self>)
        ensures
            r is Some <==> items@.len() > 0 && forall|k: int|
                0 <= k < items@.len() ==> items@[k] < 64,
            r is Some ==> r->0@ == index_set(items@),
    {
        let mut word: u64 = 0;
        let mut k: usize = 0;
        proof {
            lemma_bits_empty(0);
            assert(index_set(items@.take(0)) =~= Set::<int>::empty());
        }
        while k < items.len()
            invariant
                k <= items@.len(),
                bits_of(word) == index_set(items@.take(k as int)),
                forall|j: int| 0 <= j < k ==> items@[j] < 64,
            decreases items@.len() - k,
        {
            let item = items[k];
            if item >= 64 {
                return None;
            }
            proof {
                lemma_bits_single(item as u64);
                lemma_bits_or(word, 1u64 << item as u64);
                assert(index_set(items@.take(k + 1)) =~= index_set(items@.take(k as int)).insert(
                    item as int,
                )) by {
                    assert(items@.take(k + 1)[k as int] == item);
                    assert forall|i: int|
                        index_set(items@.take(k as int)).contains(i) implies index_set(
                        items@.take(k + 1),
                    ).contains(i) by {
                        let j = choose|j: int|
                            0 <= j < k && items@.take(k as int)[j] == i;
                        assert(items@.take(k + 1)[j] == i);
                    }
                }
            }
            word = word | (1u64 << item as u64);
            k = k + 1;
        }
        assert(items@.take(k as int) =~= items@);
        proof {
            lemma_bits_empty(word);
            if items@.len() > 0 {
                assert(index_set(items@).contains(items@[0] as int));
            }
        }
        if word != 0 {
            Some(NonEmptyBitSet(word))
        } else {
            None
        }
    }

    /// The union of the given sets; none when there are none.
    pub fn from_bitsets(sets: &[NonEmptyBitSet]) -> (r: Option<Self>)
        ensures
            r is Some <==> sets@.len() > 0,
            r is Some ==> r->0@ == union_of(sets@),
            sets@.len() > 0 ==> union_of(sets@) != Set::<int>::empty(),
    {
        let mut word: u64 = 0;
        let mut k: usize = 0;
        proof {
            lemma_bits_empty(0);
            assert(union_of(sets@.take(0)) =~= Set::<int>::empty());
        }
        while k < sets.len()
            invariant
                k <= sets@.len(),
                bits_of(word) == union_of(sets@.take(k as int)),
            decreases sets@.len() - k,
        {
            let other = sets[k];
            proof {
                lemma_bits_or(word, other.0);
                assert(union_of(sets@.take(k + 1)) =~= union_of(sets@.take(k as int)) + other@) by {
                    assert(sets@.take(k + 1)[k as int] == other);
                    assert forall|i: int|
                        union_of(sets@.take(k as int)).contains(i) implies union_of(
                        sets@.take(k + 1),
                    ).contains(i) by {
                        let j = choose|j: int|
                            0 <= j < k && sets@.take(k as int)[j]@.contains(i);
                        assert(sets@.take(k + 1)[j]@.contains(i));
                    }
                }
            }
            word = word | other.0;
            k = k + 1;
        }
        assert(sets@.take(k as int) =~= sets@);
        if sets.len() > 0 {
            let first = sets[0];
            proof {
                use_type_invariant(first);
                lemma_bits_nonzero(first.0);
                lemma_bits_empty(word);
                let m = first.0.trailing_zeros() as int;
                assert(sets@[0]@.contains(m));
                assert(union_of(sets@).contains(m));
            }
            Some(NonEmptyBitSet(word))
        } else {
            None
        }
    }

    /// The set of the inclusive range `[start, end]`.
    pub fn from_range(start: usize, end: usize) -> (r: Self)
        requires
            start <= end < 64,
        ensures
            r@ == index_range(start as int, end as int),
    {
        let mut word: u64 = 0;
        let mut idx: u64 = start as u64;
        proof {
            lemma_bits_empty(0);
            assert(index_range(start as int, start - 1) =~= Set::<int>::empty());
        }
        while idx <= end as u64
            invariant
                start <= idx <= end + 1,
                end < 64,
                bits_of(word) == index_range(start as int, idx - 1),
            decreases end + 1 - idx,
        {
            proof {
                lemma_bits_single(idx);
                lemma_bits_or(word, 1u64 << idx);
                assert(index_range(start as int, idx as int) =~= index_range(
                    start as int,
                    idx - 1,
                ).insert(idx as int));
            }
            word = word | (1u64 << idx);
            idx = idx + 1;
        }
        proof {
            lemma_bits_empty(word);
            assert(bits_of(word).contains(start as int));
        }
        NonEmptyBitSet(word)
    }

    /// Adds `i` to the set.
    pub fn set(&mut self, i: BitSetIndex)
        ensures
            final(self)@ == old(self)@.insert(i@),
    {
        proof {
            use_type_invariant(&*self);
        }
        let b = i.shift();
        proof {
            lemma_bits_single(b);
            lemma_bits_or(self.0, 1u64 << b);
            lemma_bits_empty(self.0 | (1u64 << b));
            assert(bits_of(self.0 | (1u64 << b)).contains(b as int));
        }
        self.0 = self.0 | (1u64 << b);
    }

    /// Whether `i` is in the set.
    pub fn test(&self, i: BitSetIndex) -> (r: bool)
        ensures
            r == self@.contains(i@),
    {
        let b = i.shift();
        (self.0 >> b) & 1u64 == 1u64
    }

    /// The number of indices in the set, at least one.
    pub fn len(self) -> (r: usize)
        ensures
            r == self@.len(),
            0 < r <= 64,
    {
        proof {
            use_type_invariant(self);
            lemma_bits_nonzero(self.0);
            lemma_bits_finite(self.0, 64);
            let t = self.0.trailing_zeros() as int;
            assert(bits_of(self.0).remove(t).len() + 1 == bits_of(self.0).len());
        }
        count_bits(self.0)
    }

    /// Adds every index of `other` to the set.
    pub fn inplace_union(&mut self, other: NonEmptyBitSet)
        ensures
            final(self)@ == old(self)@ + other@,
    {
        proof {
            use_type_invariant(&*self);
            lemma_bits_or(self.0, other.0);
            lemma_bits_nonzero(self.0);
            lemma_bits_empty(self.0 | other.0);
            assert(bits_of(self.0 | other.0).contains(self.0.trailing_zeros() as int));
        }
        self.0 = self.0 | other.0;
    }

    /// The least index of the set.
    pub fn min(self) -> (r: BitSetIndex)
        ensures
            is_least(self@, r@),
    {
        proof {
            use_type_invariant(self);
        }
        let t = self.0.trailing_zeros();
        proof {
            assert forall|j: int| self@.contains(j) implies t <= j by {
                if j < t {
                    assert((self.0 >> (j as u64)) & 1u64 == 0u64);
                }
            }
        }
        BitSetIndex::unsafe_new(t as u8)
    }

    /// The greatest index of the set.
    pub fn max(self) -> (r: BitSetIndex)
        ensures
            is_greatest(self@, r@),
    {
        proof {
            use_type_invariant(self);
        }
        let z = self.0.leading_zeros();
        let m = 63 - z;
        proof {
            let x = self.0;
            assert((x >> (m as u64)) & 1u64 != 0u64);
            assert((x >> (m as u64)) & 1u64 != 0u64 ==> (x >> (m as u64)) & 1u64 == 1u64)
                by (bit_vector);
            assert forall|j: int| self@.contains(j) implies j <= m by {
                if j > m {
                    assert((x >> (j as u64)) & 1u64 == 0u64);
                }
            }
        }
        BitSetIndex::unsafe_new(m as u8)
    }

    /// The least index of the set that is `i` or above, if any.
    pub fn next_set(self, i: BitSetIndex) -> (r: Option<BitSetIndex>)
        ensures
            r is Some <==> exists|j: int| self@.contains(j) && i@ <= j,
            r is Some ==> is_least(self@.filter(|j: int| i@ <= j), r->0@),
    {
        let b = i.shift();
        let x = self.0;
        let n = x >> b;
        if n != 0 {
            let t = n.trailing_zeros();
            proof {
                lemma_shift_bits(x, b, t as u64);
                assert(b + t < 64);
                assert forall|j: int| self@.contains(j) && b <= j implies b + t <= j by {
                    if j < b + t {
                        lemma_shift_bits(x, b, (j - b) as u64);
                        assert((n >> ((j - b) as u64)) & 1u64 == 0u64);
                    }
                }
                assert(self@.contains(b + t));
            }
            Some(BitSetIndex::unsafe_new((b + t as u64) as u8))
        } else {
            proof {
                assert forall|j: int| self@.contains(j) implies j < b by {
                    if j >= b {
                        let d = (j - b) as u64;
                        lemma_shift_bits(x, b, d);
                        assert((0u64 >> d) & 1u64 == 0u64) by (bit_vector);
                    }
                }
            }
            None
        }
    }
}


/// A set of indices below 64, possibly empty.
#[derive(Clone, Copy, Debug, PartialEq, Eq, PartialOrd, Ord, Hash, Structural)]
pub struct BitSet(pub u64);

impl View for BitSet {
    type V = Set<int>;

    open spec fn view(&self) -> Set<int> {
        bits_of(self.0)
    }
}

/// Signals an index of 64 or more.
#[derive(Clone, Copy, Debug, PartialEq, Eq, Structural)]
pub struct OutOfBoundError;

impl BitSet {
    /// The empty set.
    pub fn new() -> (r: Self)
        ensures
            r@ == Set::<int>::empty(),
    {
        proof {
            lemma_bits_empty(0);
        }
        BitSet(0)
    }

    /// The set of the inclusive range `[start, end]`, empty when `end < start`.
    pub fn from_range(start: usize, end: usize) -> (r: Self)
        requires
            start < 64,
            end < 64,
        ensures
            r@ == index_range(start as int, end as int),
    {
        let mut set = BitSet::new();
        let mut idx: u8 = start as u8;
        assert(index_range(start as int, start - 1) =~= Set::<int>::empty());
        while idx as usize <= end
            invariant
                start <= idx <= 64,
                idx <= end + 1 || idx == start,
                end < 64,
                set@ == index_range(start as int, idx - 1),
            decreases 64 - idx,
        {
            set = set.copy_set(BitSetIndex::unsafe_new(idx));
            assert(index_range(start as int, idx as int) =~= index_range(start as int, idx - 1).insert(
                idx as int,
            ));
            idx = idx + 1;
        }
        if end < start {
            assert(index_range(start as int, end as int) =~= Set::<int>::empty());
        }
        set
    }

    /// The set of every index below 64.
    pub fn full() -> (r: Self)
        ensures
            r@ == index_range(0, 63),
    {
        proof {
            lemma_bits_empty(0xffff_ffff_ffff_ffffu64);
        }
        BitSet(0xffff_ffff_ffff_ffffu64)
    }

    /// Adds `i` to the set.
    pub fn set(&mut self, i: BitSetIndex)
        ensures
            final(self)@ == old(self)@.insert(i@),
    {
        *self = self.copy_set(i);
    }

    fn copy_set(self, i: BitSetIndex) -> (r: Self)
        ensures
            r@ == self@.insert(i@),
    {
        let b = i.shift();
        proof {
            lemma_bits_single(b);
            lemma_bits_or(self.0, 1u64 << b);
            assert(bits_of(self.0) + set![b as int] =~= bits_of(self.0).insert(b as int));
        }
        BitSet(self.0 | (1u64 << b))
    }

    /// Removes `i` from the set.
    pub fn clear(&mut self, i: BitSetIndex)
        ensures
            final(self)@ == old(self)@.remove(i@),
    {
        let b = i.shift();
        proof {
            lemma_bits_single(b);
            lemma_bits_and(self.0, !(1u64 << b));
            assert(bits_of(self.0).intersect(index_range(0, 63).remove(b as int)) =~= bits_of(
                self.0,
            ).remove(b as int));
        }
        self.0 = self.0 & !(1u64 << b);
    }

    /// Whether `i` is in the set.
    pub fn test(&self, i: BitSetIndex) -> (r: bool)
        ensures
            r == self@.contains(i@),
    {
        let b = i.shift();
        (self.0 >> b) & 1u64 == 1u64
    }

    /// The number of indices in the set.
    pub fn len(self) -> (r: usize)
        ensures
            r == self@.len(),
            r <= 64,
    {
        count_bits(self.0)
    }

    /// Whether the set is empty.
    pub fn is_empty(self) -> (r: bool)
        ensures
            r == (self@ == Set::<int>::empty()),
    {
        proof {
            lemma_bits_finite(self.0, 64);
            if self@.len() == 0 {
                assert(self@ =~= Set::<int>::empty());
            }
        }
        self.len() == 0
    }

    /// Adds every index of `other` to the set.
    pub fn inplace_union(&mut self, other: BitSet)
        ensures
            final(self)@ == old(self)@ + other@,
    {
        proof {
            lemma_bits_or(self.0, other.0);
        }
        self.0 = self.0 | other.0;
    }

    /// The indices that both sets hold.
    pub fn intersection(&self, other: BitSet) -> (r: BitSet)
        ensures
            r@ == self@.intersect(other@),
    {
        proof {
            lemma_bits_and(self.0, other.0);
        }
        BitSet(self.0 & other.0)
    }

    /// The least and the greatest index, if the set is not empty.
    pub fn bound(self) -> (r: Option<(BitSetIndex, BitSetIndex)>)
        ensures
            r is None <==> self@ == Set::<int>::empty(),
            r matches Some((lo, hi)) ==> is_least(self@, lo@) && is_greatest(self@, hi@),
    {
        let lo = self.min()?;
        let hi = self.max()?;
        Some((lo, hi))
    }

    /// The least index, if the set is not empty.
    pub fn min(self) -> (r: Option<BitSetIndex>)
        ensures
            r is None <==> self@ == Set::<int>::empty(),
            r is Some ==> is_least(self@, r->0@),
    {
        proof {
            lemma_bits_empty(self.0);
        }
        if self.0 == 0 {
            return None;
        }
        Some(NonEmptyBitSet::from_word(self.0).min())
    }

    /// The greatest index, if the set is not empty.
    pub fn max(self) -> (r: Option<BitSetIndex>)
        ensures
            r is None <==> self@ == Set::<int>::empty(),
            r is Some ==> is_greatest(self@, r->0@),
    {
        proof {
            lemma_bits_empty(self.0);
        }
        if self.0 == 0 {
            return None;
        }
        Some(NonEmptyBitSet::from_word(self.0).max())
    }
}

/// Every index of a set lies in `[0, 64)`.
pub proof fn lemma_bits_bounded(s: NonEmptyBitSet)
    ensures
        forall|i: int| s@.contains(i) ==> 0 <= i < 64,
{
}

impl NonEmptyBitSet {
    fn from_word(word: u64) -> (r: Self)
        requires
            word != 0,
        ensures
            r@ == bits_of(word),
    {
        NonEmptyBitSet(word)
    }

    /// The set whose bit `i` of `word` is set for each index `i`; none for
    /// the zero word.
    pub fn from_bits(word: u64) -> (r: Option<Self>)
        ensures
            r is Some <==> word != 0,
            r matches Some(s) ==> s@ == bits_of(word),
    {
        if word == 0 {
            None
        } else {
            Some(NonEmptyBitSet(word))
        }
    }

    /// The word that holds the set.
    pub fn bits(self) -> (r: u64)
        ensures
            bits_of(r) == self@,
            r != 0,
    {
        proof {
            use_type_invariant(self);
        }
        self.0
    }
}

/// A set built from a non-empty sequence of indices has the least and the
/// greatest item of the sequence as its least and greatest elements, and as
/// many elements as the sequence has distinct items.
pub proof fn lemma_from_items_summary(items: Seq<usize>, s: Set<int>, lo: int, hi: int)
    requires
        items.len() > 0,
        forall|k: int| 0 <= k < items.len() ==> items[k] < 64,
        s == index_set(items),
        is_least(s, lo),
        is_greatest(s, hi),
    ensures
        exists|k: int| 0 <= k < items.len() && items[k] == lo,
        forall|k: int| 0 <= k < items.len() ==> lo <= items[k],
        exists|k: int| 0 <= k < items.len() && items[k] == hi,
        forall|k: int| 0 <= k < items.len() ==> items[k] <= hi,
        s.len() == items.to_set().len(),
{
    assert forall|k: int| 0 <= k < items.len() implies lo <= items[k] && items[k] <= hi by {
        assert(s.contains(items[k] as int));
    }
    let f = |x: usize| x as int;
    vstd::seq_lib::seq_to_set_is_finite(items);
    assert(items.to_set().map(f) =~= s) by {
        assert forall|i: int| s.contains(i) implies items.to_set().map(f).contains(i) by {
            let k = choose|k: int| 0 <= k < items.len() && items[k] == i;
            assert(items.to_set().contains(items[k]));
            assert(f(items[k]) == i);
        }
        assert forall|i: int| items.to_set().map(f).contains(i) implies s.contains(i) by {
            let x = choose|x: usize| items.to_set().contains(x) && f(x) == i;
            let k = choose|k: int| 0 <= k < items.len() && items[k] == x;
        }
    }
    assert(vstd::relations::injective_on(f, items.to_set()));
    vstd::set_lib::lemma_map_size(items.to_set(), s, f);
}

/// The range `[a, b]` with `a <= b` has `b - a + 1` elements, the least `a`
/// and the greatest `b`.
pub proof fn lemma_range_summary(a: int, b: int)
    requires
        a <= b,
    ensures
        index_range(a, b).len() == b - a + 1,
        is_least(index_range(a, b), a),
        is_greatest(index_range(a, b), b),
{
    vstd::set_lib::lemma_int_range(a, b + 1);
    assert(index_range(a, b) =~= vstd::set_lib::set_int_range(a, b + 1));
}

} // verus!
