use rbset::{consecutive_slices, replay, Action, RBSet};

#[test]
fn continuous_add() {
    let mut set = RBSet::new();
    set.insert(0);
    set.insert(1);
    set.insert(2);
    set.insert(3);
    assert_eq!(set.ranges().len(), 1);
    assert_eq!(set.ranges()[0], (0, 3));
}

#[test]
fn discontinuous_add() {
    let mut set = RBSet::new();
    set.insert(0);
    set.insert(1);
    set.insert(2);
    set.insert(3);
    set.insert(7);
    set.insert(8);
    set.insert(10);
    assert_eq!(set.ranges().len(), 3);
    assert_eq!(set.ranges()[0], (0, 3));
    assert_eq!(set.ranges()[1], (7, 8));
    assert_eq!(set.ranges()[2], (10, 10));
}

#[test]
fn iter_empty() {
    let set = RBSet::new();
    let mut iter = set.iter();
    assert!(iter.next().is_none());
}

#[test]
fn iter() {
    let mut set = RBSet::new();
    set.insert(0);
    set.insert(1);
    set.insert(2);
    set.insert(3);
    set.insert(7);
    set.insert(8);
    set.insert(10);
    let mut iter = set.iter();
    assert_eq!(iter.next(), Some(0));
    assert_eq!(iter.next(), Some(1));
    assert_eq!(iter.next(), Some(2));
    assert_eq!(iter.next(), Some(3));
    assert_eq!(iter.next(), Some(7));
    assert_eq!(iter.next(), Some(8));
    assert_eq!(iter.next(), Some(10));
    assert!(iter.next().is_none());
}

fn set_of(values: &[u32]) -> RBSet {
    let mut set = RBSet::new();
    for v in values {
        set.insert(*v);
    }
    set
}

fn is_canonical(ranges: &[(u32, u32)]) -> bool {
    ranges.iter().all(|(s, e)| s <= e)
        && ranges.windows(2).all(|w| (w[0].1 as u64) + 1 < w[1].0 as u64)
}

#[test]
fn remove_interior_splits() {
    let mut set = set_of(&[0, 1, 2, 3]);
    set.remove(&1);
    assert_eq!(set.ranges(), &[(0, 0), (2, 3)]);
}

#[test]
fn remove_start_shrinks() {
    let mut set = set_of(&[0, 1, 2, 3]);
    set.remove(&0);
    assert_eq!(set.ranges(), &[(1, 3)]);
}

#[test]
fn remove_end_shrinks() {
    let mut set = set_of(&[0, 1, 2, 3]);
    set.remove(&3);
    assert_eq!(set.ranges(), &[(0, 2)]);
}

#[test]
fn remove_down_to_empty() {
    let mut set = set_of(&[0, 1, 2, 3]);
    set.remove(&3);
    set.remove(&2);
    set.remove(&1);
    set.remove(&0);
    assert_eq!(set.ranges(), &[]);
    assert!(set.is_empty());
    assert_eq!(set.len(), 0);
}

#[test]
fn insert_closes_gap_of_one() {
    let mut set = set_of(&[1, 2, 4, 5]);
    assert_eq!(set.ranges(), &[(1, 2), (4, 5)]);
    set.insert(3);
    assert_eq!(set.ranges(), &[(1, 5)]);
}

#[test]
fn insert_extends_downward() {
    let mut set = set_of(&[5, 6, 10]);
    set.insert(4);
    assert_eq!(set.ranges(), &[(4, 6), (10, 10)]);
    set.insert(9);
    assert_eq!(set.ranges(), &[(4, 6), (9, 10)]);
}

#[test]
fn insert_before_and_between() {
    let mut set = set_of(&[10, 20]);
    set.insert(1);
    set.insert(15);
    assert_eq!(set.ranges(), &[(1, 1), (10, 10), (15, 15), (20, 20)]);
}

#[test]
fn contains_after_insert() {
    let mut set = set_of(&[3, 9]);
    for v in [0u32, 4, 8, 100, u32::MAX] {
        set.insert(v);
        assert!(set.contains(&v));
    }
}

#[test]
fn absent_after_remove() {
    let mut set = set_of(&[1, 2, 3, 4, 5, 8]);
    for v in [3u32, 1, 8, 5, 42] {
        set.remove(&v);
        assert!(!set.contains(&v));
    }
    set.insert(3);
    assert!(set.contains(&3));
}

#[test]
fn insert_present_is_unchanged() {
    let mut set = set_of(&[0, 1, 2, 7, 9]);
    let before = set.ranges().to_vec();
    set.insert(1);
    set.insert(7);
    assert_eq!(set.ranges(), before.as_slice());
}

#[test]
fn remove_absent_is_unchanged() {
    let mut set = set_of(&[0, 1, 2, 7, 9]);
    let before = set.ranges().to_vec();
    set.remove(&5);
    set.remove(&100);
    assert_eq!(set.ranges(), before.as_slice());
}

#[test]
fn differential_against_plain_set() {
    let mut set = RBSet::new();
    let mut plain = std::collections::HashSet::new();
    let mut x: u32 = 12345;
    for _ in 0..2000 {
        x = x.wrapping_mul(1103515245).wrapping_add(12345);
        let v = (x >> 16) % 64;
        if (x >> 8) % 3 == 0 {
            set.remove(&v);
            plain.remove(&v);
        } else {
            set.insert(v);
            plain.insert(v);
        }
        assert!(is_canonical(set.ranges()));
        assert_eq!(set.len(), plain.len() as u64);
        for probe in 0..66u32 {
            assert_eq!(set.contains(&probe), plain.contains(&probe));
        }
        let mut sorted: Vec<u32> = plain.iter().copied().collect();
        sorted.sort();
        assert_eq!(consecutive_slices(&sorted), set.ranges().to_vec());
    }
}

#[test]
fn iteration_yields_len_values() {
    let set = set_of(&[5, 6, 7, 20, 22, 23, 100]);
    let mut iter = set.iter();
    let mut seen = Vec::new();
    while let Some(v) = iter.next() {
        assert!(set.contains(&v));
        seen.push(v);
    }
    assert_eq!(seen.len() as u64, set.len());
    assert_eq!(seen, vec![5, 6, 7, 20, 22, 23, 100]);
    assert!(iter.next().is_none());
}

#[test]
fn empty_set_has_no_values() {
    let set = RBSet::new();
    assert_eq!(set.len(), 0);
    assert!(set.is_empty());
    assert!(set.iter().next().is_none());
    let set: RBSet = Default::default();
    assert!(set.is_empty());
}

#[test]
fn len_counts_values() {
    let set = set_of(&[0, 1, 2, 3, 7, 8, 10]);
    assert_eq!(set.len(), 7);
}

#[test]
fn extremes_of_the_domain() {
    let mut set = set_of(&[u32::MAX, 0, u32::MAX - 1, 1]);
    assert_eq!(set.ranges(), &[(0, 1), (u32::MAX - 1, u32::MAX)]);
    set.remove(&u32::MAX);
    assert_eq!(set.ranges(), &[(0, 1), (u32::MAX - 1, u32::MAX - 1)]);
    set.remove(&0);
    assert_eq!(set.ranges(), &[(1, 1), (u32::MAX - 1, u32::MAX - 1)]);
}

#[test]
fn whole_domain_len() {
    let set = RBSet::from_ranges(vec![(0, u32::MAX)]).unwrap();
    assert_eq!(set.len(), 1u64 << 32);
    assert!(set.contains(&u32::MAX));
}

#[test]
fn clear_empties() {
    let mut set = set_of(&[1, 2, 9]);
    set.clear();
    assert!(set.is_empty());
    assert!(!set.contains(&1));
}

#[test]
fn text_form() {
    let set = set_of(&[0, 1, 2, 3, 7, 8, 10]);
    assert_eq!(set.to_string(), "0..=3 7..=8 10..=10 \n");
    assert_eq!(RBSet::new().to_string(), "\n");
    let set = set_of(&[4_000_000_000]);
    assert_eq!(set.to_string(), "4000000000..=4000000000 \n");
}

#[test]
fn from_ranges_accepts_canonical() {
    let set = RBSet::from_ranges(vec![(0, 3), (7, 8), (10, 10)]).unwrap();
    assert_eq!(set.ranges(), &[(0, 3), (7, 8), (10, 10)]);
    assert!(RBSet::from_ranges(vec![]).unwrap().is_empty());
}

#[test]
fn from_ranges_rejects_bad_lists() {
    assert!(RBSet::from_ranges(vec![(3, 2)]).is_none());
    assert!(RBSet::from_ranges(vec![(0, 3), (4, 5)]).is_none());
    assert!(RBSet::from_ranges(vec![(0, 3), (2, 5)]).is_none());
    assert!(RBSet::from_ranges(vec![(5, 6), (0, 1)]).is_none());
}

#[test]
fn consecutive_slices_groups_runs() {
    assert_eq!(consecutive_slices(&[]), vec![]);
    assert_eq!(consecutive_slices(&[4]), vec![(4, 4)]);
    assert_eq!(
        consecutive_slices(&[0, 1, 2, 3, 7, 8, 10]),
        vec![(0, 3), (7, 8), (10, 10)]
    );
}

#[test]
fn replay_and_apply() {
    let actions = vec![
        Action::Insert(1),
        Action::Insert(2),
        Action::Check(2),
        Action::Insert(5),
        Action::Remove(1),
        Action::CheckOrder,
        Action::Insert(4),
    ];
    let set = replay(&actions);
    assert_eq!(set.ranges(), &[(2, 2), (4, 5)]);
    let mut other = RBSet::new();
    for a in &actions {
        other.apply(a);
    }
    assert_eq!(other.ranges(), set.ranges());
}
