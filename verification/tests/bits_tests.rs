use wordle_solver::bits::BitSet;

fn ones_of(b: &BitSet) -> Vec<usize> {
    let mut it = b.iter_ones();
    let mut out = Vec::new();
    while let Some(i) = it.next() {
        out.push(i);
    }
    out
}

#[test]
fn new_set_is_empty() {
    let b = BitSet::new(130);
    assert_eq!(b.len(), 130);
    assert_eq!(b.count_ones(), 0);
    assert!(b.is_empty());
    assert_eq!(b.as_slice().len(), 3);
    assert!(ones_of(&b).is_empty());
}

#[test]
fn ones_sets_exactly_len_bits() {
    let b = BitSet::ones(70);
    assert_eq!(b.count_ones(), 70);
    assert!(!b.is_empty());
    assert_eq!(b.as_slice(), &[u64::MAX, (1u64 << 6) - 1]);
    assert!(b.get(69));
    assert!(!b.get(70));
    let full = BitSet::ones(128);
    assert_eq!(full.as_slice(), &[u64::MAX, u64::MAX]);
}

#[test]
fn set_and_get_round_trip() {
    let mut b = BitSet::new(100);
    b.set(3, true);
    b.set(64, true);
    b.set(99, true);
    assert!(b.get(3) && b.get(64) && b.get(99));
    assert!(!b.get(4));
    assert_eq!(b.count_ones(), 3);
    b.set(64, false);
    assert!(!b.get(64));
    assert_eq!(b.count_ones(), 2);
    // Out of range indices are ignored.
    b.set(100, true);
    assert!(!b.get(100));
    assert_eq!(b.count_ones(), 2);
}

#[test]
fn iter_ones_yields_members_in_order() {
    let mut b = BitSet::new(200);
    for i in [150, 0, 63, 64, 127, 199] {
        b.set(i, true);
    }
    assert_eq!(ones_of(&b), vec![0, 63, 64, 127, 150, 199]);
}

#[test]
fn intersection_counts_and_builds_common_members() {
    let mut a = BitSet::new(80);
    let mut b = BitSet::new(80);
    for i in [1, 5, 70, 79] {
        a.set(i, true);
    }
    for i in [5, 6, 70] {
        b.set(i, true);
    }
    assert_eq!(a.intersection_count(&b), 2);
    let c = a.intersect(&b);
    assert_eq!(c.len(), 80);
    assert_eq!(ones_of(&c), vec![5, 70]);
    assert_eq!(c.count_ones(), a.intersection_count(&b));
}

#[test]
fn equal_members_make_equal_sets() {
    let mut a = BitSet::new(10);
    let mut b = BitSet::ones(10);
    a.set(2, true);
    for i in 0..10 {
        if i != 2 {
            b.set(i, false);
        }
    }
    assert_eq!(a, b);
    assert_eq!(a.clone(), b);
}

#[test]
fn ones_leaves_the_padding_clear() {
    let b = BitSet::ones(65);
    assert_eq!(b.as_slice(), &[u64::MAX, 1u64]);
    assert_eq!(b.count_ones(), 65);
    assert!(b.get(64));
    assert!(!b.get(65));
    let z = BitSet::new(70);
    assert!(z.as_slice().iter().all(|w| *w == 0));
}

#[test]
fn intersect_keeps_the_first_length() {
    let mut a = BitSet::ones(10);
    a.set(3, false);
    let b = BitSet::ones(100);
    let c = a.intersect(&b);
    assert_eq!(c.len(), 10);
    assert_eq!(c.count_ones(), 9);
    let long = BitSet::ones(100);
    let short = BitSet::ones(10);
    let d = long.intersect(&short);
    assert_eq!(d.len(), 100);
    assert_eq!(d.as_slice(), &[(1u64 << 10) - 1]);
}
