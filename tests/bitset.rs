use cw_subscription::bitset::{BitSet, BitSetIndex, NonEmptyBitSet};

#[test]
fn bitset_index_bound_check() {
    BitSetIndex::new(0).unwrap();
    BitSetIndex::new(63).unwrap();
    assert!(BitSetIndex::new(64).is_none());
}

#[test]
fn bitset_bitset_index_bound_check() {
    BitSetIndex::new(0).unwrap();
    BitSetIndex::new(63).unwrap();
    assert!(BitSetIndex::new(64).is_none());
}

#[test]
fn bitset_operations_work() {
    let mut set = NonEmptyBitSet::new(BitSetIndex::new(0).unwrap());
    assert_eq!(set.len(), 1);
    assert_eq!(set.min().get(), 0);
    assert_eq!(set.max().get(), 0);

    let v0 = BitSetIndex::new(0).unwrap();
    let v63 = BitSetIndex::new(63).unwrap();

    assert!(set.test(v0));
    assert!(!set.test(v63));

    set.set(v63);

    assert!(set.test(v63));

    assert_eq!(set.len(), 2);
    assert_eq!(set.min().get(), 0);
    assert_eq!(set.max().get(), 63);
}

#[test]
fn bitset_bitset_operations_work() {
    let mut set = BitSet::new();

    assert_eq!(set.len(), 0);
    assert!(set.is_empty());
    assert_eq!(set.min(), None);
    assert_eq!(set.max(), None);

    let v0 = BitSetIndex::new(0).unwrap();
    let v63 = BitSetIndex::new(63).unwrap();

    assert!(!set.test(v0));
    assert!(!set.test(v63));

    set.set(v0);
    set.set(v63);

    assert!(set.test(v0));
    assert!(set.test(v63));

    assert_eq!(set.len(), 2);
    assert_eq!(set.min().unwrap().value(), 0);
    assert_eq!(set.max().unwrap().value(), 63);
}

#[test]
fn bitset_from_range() {
    let set = NonEmptyBitSet::from_range(1, 12);
    assert_eq!(set.max().get(), 12);
    assert_eq!(set.min().get(), 1);
    assert_eq!(set.len(), 12);
}

#[test]
fn bitset_bitset_from_range() {
    let set = BitSet::from_range(1, 12);
    assert_eq!(set.max().unwrap().value(), 12);
    assert_eq!(set.min().unwrap().value(), 1);
    assert_eq!(set.len(), 12);
}

#[test]
fn bitset_next_set() {
    let mut set = NonEmptyBitSet::new(BitSetIndex::new(0).unwrap());
    set.set(BitSetIndex::new(10).unwrap());

    assert_eq!(
        set.next_set(BitSetIndex::new(0).unwrap()),
        Some(BitSetIndex::new(0).unwrap())
    );
    assert_eq!(
        set.next_set(BitSetIndex::new(1).unwrap()),
        Some(BitSetIndex::new(10).unwrap())
    );
    assert_eq!(set.next_set(BitSetIndex::new(11).unwrap()), None);
}

#[test]
fn bitset_iterator() {}

#[test]
fn index_new_accepts_exactly_below_64() {
    for n in 0..200usize {
        let r = BitSetIndex::new(n);
        assert_eq!(r.is_some(), n < 64);
        if let Some(i) = r {
            assert_eq!(i.get(), n);
            assert_eq!(i.value(), n);
        }
    }
}

#[test]
fn index_checked_add() {
    let a = BitSetIndex::new(40).unwrap();
    let b = BitSetIndex::new(23).unwrap();
    assert_eq!(a.checked_add(b).unwrap().get(), 63);
    let c = BitSetIndex::new(24).unwrap();
    assert!(a.checked_add(c).is_none());
    assert_eq!(BitSetIndex::unsafe_new(7).get(), 7);
}

#[test]
fn from_items_min_max_len() {
    let set = NonEmptyBitSet::from_items(&[9, 3, 40, 3, 17, 9]).unwrap();
    assert_eq!(set.min().get(), 3);
    assert_eq!(set.max().get(), 40);
    assert_eq!(set.len(), 4);
    assert!(set.test(BitSetIndex::new(17).unwrap()));
    assert!(!set.test(BitSetIndex::new(18).unwrap()));
}

#[test]
fn from_items_refuses_empty_and_out_of_bound() {
    assert!(NonEmptyBitSet::from_items(&[]).is_none());
    assert!(NonEmptyBitSet::from_items(&[1, 64]).is_none());
    assert!(NonEmptyBitSet::from_items(&[63]).is_some());
}

#[test]
fn from_bitsets_unions() {
    let a = NonEmptyBitSet::from_items(&[1, 2]).unwrap();
    let b = NonEmptyBitSet::from_items(&[2, 50]).unwrap();
    let u = NonEmptyBitSet::from_bitsets(&[a, b]).unwrap();
    assert_eq!(u, NonEmptyBitSet::from_items(&[1, 2, 50]).unwrap());
    assert!(NonEmptyBitSet::from_bitsets(&[]).is_none());
}

#[test]
fn inplace_union_adds() {
    let mut a = NonEmptyBitSet::from_items(&[5]).unwrap();
    a.inplace_union(NonEmptyBitSet::from_items(&[6, 7]).unwrap());
    assert_eq!(a.len(), 3);
    assert_eq!(a.min().get(), 5);
    assert_eq!(a.max().get(), 7);
}

#[test]
fn from_range_sizes() {
    for a in 0..64usize {
        for b in a..64usize {
            let set = NonEmptyBitSet::from_range(a, b);
            assert_eq!(set.len(), b - a + 1);
            assert_eq!(set.min().get(), a);
            assert_eq!(set.max().get(), b);
        }
    }
    let full = NonEmptyBitSet::from_range(0, 63);
    assert_eq!(full.len(), 64);
}

#[test]
fn next_set_at_top() {
    let set = NonEmptyBitSet::from_items(&[63]).unwrap();
    assert_eq!(
        set.next_set(BitSetIndex::new(63).unwrap()),
        Some(BitSetIndex::new(63).unwrap())
    );
    assert_eq!(
        set.next_set(BitSetIndex::new(0).unwrap()),
        Some(BitSetIndex::new(63).unwrap())
    );
}

#[test]
fn bitset_clear_intersection_bound() {
    let mut set = BitSet::full();
    assert_eq!(set.len(), 64);
    set.clear(BitSetIndex::new(0).unwrap());
    set.clear(BitSetIndex::new(63).unwrap());
    assert_eq!(set.len(), 62);
    let (lo, hi) = set.bound().unwrap();
    assert_eq!(lo.value(), 1);
    assert_eq!(hi.value(), 62);
    let other = BitSet::from_range(60, 63);
    let both = set.intersection(other);
    assert_eq!(both.len(), 3);
    assert_eq!(both.max().unwrap().value(), 62);
    assert!(BitSet::new().bound().is_none());
    assert!(BitSet::from_range(5, 4).is_empty());
    let mut u = BitSet::from_range(0, 1);
    u.inplace_union(BitSet::from_range(10, 11));
    assert_eq!(u.len(), 4);
}

#[test]
fn bits_round_trip() {
    let set = NonEmptyBitSet::from_items(&[0, 5, 63]).unwrap();
    let w = set.bits();
    assert_eq!(w, 1 | (1 << 5) | (1 << 63));
    assert_eq!(NonEmptyBitSet::from_bits(w), Some(set));
    assert_eq!(NonEmptyBitSet::from_bits(0), None);
}
