use skip_list::{PromotionSource, SeededSource, SkipList, SkipListError, Traversal};

fn ascending(a: &i32, b: &i32) -> i32 {
    if a < b {
        -1
    } else if a > b {
        1
    } else {
        0
    }
}

fn collect<F: Fn(&i32, &i32) -> i32>(mut walk: Traversal<'_, i32, F>) -> Vec<i32> {
    let mut values = Vec::new();
    while let Some(value) = walk.next() {
        values.push(*value);
    }
    values
}

/// Grants the promotions of a fixed list, then none.
struct Script {
    decisions: Vec<bool>,
    asked: usize,
}

impl Script {
    fn new(decisions: &[bool]) -> Self {
        Script { decisions: decisions.to_vec(), asked: 0 }
    }
}

impl PromotionSource for Script {
    fn promote(&mut self) -> bool {
        let decision = self.decisions.get(self.asked).copied().unwrap_or(false);
        self.asked += 1;
        decision
    }
}

#[test]
fn it_constructs() {
    let comp = |a: &i32, b: &i32| -> i32 {
        if a < b {
            return -1;
        } else if a > b {
            return 1;
        } else {
            return 0;
        }
    };

    let list = SkipList::new(comp);

    assert_eq!(0, list.size());
    assert_eq!(0, list.height());
}

#[test]
fn three_inserts_come_out_sorted() {
    let mut list = SkipList::new(ascending);
    let mut source = SeededSource::new(1);
    assert_eq!(list.insert(5, &mut source), Ok(()));
    assert_eq!(list.insert(3, &mut source), Ok(()));
    assert_eq!(list.insert(8, &mut source), Ok(()));
    assert_eq!(collect(list.traverse()), vec![3, 5, 8]);
    assert_eq!(list.size(), 3);
}

#[test]
fn empty_list_finds_nothing() {
    let list = SkipList::new(ascending);
    assert_eq!(list.search(&1), None);
    assert_eq!(list.size(), 0);
    assert_eq!(list.height(), 0);
    assert_eq!(collect(list.traverse()), Vec::<i32>::new());
}

#[test]
fn second_insert_of_a_value_is_rejected() {
    let mut list = SkipList::new(ascending);
    let mut source = SeededSource::new(7);
    assert_eq!(list.insert(5, &mut source), Ok(()));
    assert_eq!(list.insert(5, &mut source), Err(SkipListError::DuplicateKey));
    assert_eq!(list.size(), 1);
    assert_eq!(collect(list.traverse()), vec![5]);
}

#[test]
fn delete_one_of_a_hundred() {
    let mut list = SkipList::new(ascending);
    let mut source = SeededSource::new(42);
    for value in 1..=100 {
        assert_eq!(list.insert(value, &mut source), Ok(()));
    }
    assert_eq!(list.size(), 100);
    assert_eq!(list.delete(&50), Ok(()));
    assert_eq!(list.search(&50), None);
    let values = collect(list.traverse());
    assert_eq!(values.len(), 99);
    let expected: Vec<i32> = (1..=100).filter(|value| *value != 50).collect();
    assert_eq!(values, expected);
    assert!(values.windows(2).all(|pair| pair[0] < pair[1]));
    assert_eq!(list.size(), 99);
}

#[test]
fn deleting_the_only_value_empties_every_level() {
    let mut list = SkipList::with_max_level(ascending, 6);
    assert_eq!(list.insert_with_level(9, 4), Ok(()));
    assert_eq!(list.height(), 4);
    assert_eq!(list.delete(&9), Ok(()));
    assert_eq!(list.height(), 0);
    assert_eq!(list.size(), 0);
    for level in 0..6 {
        assert_eq!(collect(list.traverse_level(level)), Vec::<i32>::new());
    }
}

#[test]
fn traversal_is_sorted_after_mixed_operations() {
    let mut list = SkipList::new(ascending);
    let mut source = SeededSource::new(2024);
    let mut state: u32 = 12345;
    let mut model = std::collections::BTreeSet::new();
    for _ in 0..2000 {
        state = state.wrapping_mul(1664525).wrapping_add(1013904223);
        let value = ((state >> 8) % 200) as i32;
        if (state >> 3) % 3 == 0 {
            let expected = if model.remove(&value) { Ok(()) } else { Err(SkipListError::NotFound) };
            assert_eq!(list.delete(&value), expected);
        } else {
            let expected = if model.insert(value) { Ok(()) } else { Err(SkipListError::DuplicateKey) };
            assert_eq!(list.insert(value, &mut source), expected);
        }
        assert_eq!(list.size() as usize, model.len());
    }
    let values = collect(list.traverse());
    assert!(values.windows(2).all(|pair| pair[0] < pair[1]));
    assert_eq!(values, model.iter().copied().collect::<Vec<i32>>());
}

#[test]
fn every_level_is_a_subsequence_of_the_one_below() {
    let mut list = SkipList::with_max_level(ascending, 8);
    let mut source = SeededSource::new(99);
    for value in 0..301 {
        assert_eq!(list.insert((value * 37) % 301, &mut source), Ok(()));
    }
    for value in 0..100 {
        assert_eq!(list.delete(&((value * 3) % 301)), Ok(()));
    }
    let mut below = collect(list.traverse_level(0));
    assert_eq!(below, collect(list.traverse()));
    for level in 1..8 {
        let here = collect(list.traverse_level(level));
        let mut rest = below.iter();
        for value in &here {
            assert!(rest.any(|other| other == value));
        }
        assert!(here.len() <= below.len());
        assert_eq!(here.is_empty(), level >= list.height());
        below = here;
    }
    assert!(list.height() > 1);
    assert_eq!(collect(list.traverse_level(8)), Vec::<i32>::new());
}

#[test]
fn size_counts_the_lowest_level() {
    let mut list = SkipList::new(ascending);
    let mut source = SeededSource::new(5);
    for value in [4, 1, 3, 1, 2, 4] {
        let _ = list.insert(value, &mut source);
        assert_eq!(list.size() as usize, collect(list.traverse()).len());
    }
    assert_eq!(list.size(), 4);
    for value in [3, 3, 9, 1] {
        let _ = list.delete(&value);
        assert_eq!(list.size() as usize, collect(list.traverse_level(0)).len());
    }
    assert_eq!(list.size(), 2);
}

#[test]
fn height_stays_within_the_cap() {
    let mut list = SkipList::with_max_level(ascending, 3);
    assert_eq!(list.max_level(), 3);
    assert_eq!(list.height(), 0);
    let mut eager = Script::new(&[true; 10]);
    assert_eq!(list.insert(1, &mut eager), Ok(()));
    assert_eq!(list.height(), 3);
    assert_eq!(eager.asked, 2);
    assert_eq!(list.insert_with_level(2, 100), Ok(()));
    assert_eq!(list.height(), 3);
    assert_eq!(collect(list.traverse_level(2)), vec![1, 2]);
    assert_eq!(list.delete(&1), Ok(()));
    assert_eq!(list.delete(&2), Ok(()));
    assert_eq!(list.height(), 0);
    assert_eq!(list.size(), 0);
}

#[test]
fn height_is_zero_only_when_empty() {
    let mut list = SkipList::new(ascending);
    let mut source = SeededSource::new(3);
    assert_eq!(list.height() == 0, list.size() == 0);
    for value in 0..20 {
        assert_eq!(list.insert(value, &mut source), Ok(()));
        assert!(list.height() >= 1);
        assert!(list.height() <= list.max_level());
    }
    for value in 0..20 {
        assert!(list.height() >= 1);
        assert_eq!(list.delete(&value), Ok(()));
    }
    assert_eq!(list.height(), 0);
}

#[test]
fn inserted_value_is_found() {
    let mut list = SkipList::new(ascending);
    let mut source = SeededSource::new(11);
    for value in [10, -4, 7, 0, 25] {
        assert_eq!(list.insert(value, &mut source), Ok(()));
        assert_eq!(list.search(&value), Some(&value));
    }
    assert_eq!(list.search(&8), None);
    assert_eq!(list.search(&-5), None);
    assert_eq!(list.search(&26), None);
}

#[test]
fn deleted_value_is_not_found() {
    let mut list = SkipList::new(ascending);
    let mut source = SeededSource::new(12);
    for value in [10, -4, 7, 0, 25] {
        assert_eq!(list.insert(value, &mut source), Ok(()));
    }
    for value in [7, 25, -4] {
        assert_eq!(list.search(&value), Some(&value));
        assert_eq!(list.delete(&value), Ok(()));
        assert_eq!(list.search(&value), None);
    }
    assert_eq!(collect(list.traverse()), vec![0, 10]);
}

#[test]
fn deleting_an_absent_value_changes_nothing() {
    let mut list = SkipList::new(ascending);
    assert_eq!(list.delete(&1), Err(SkipListError::NotFound));
    assert_eq!(list.insert_with_level(2, 3), Ok(()));
    assert_eq!(list.insert_with_level(6, 1), Ok(()));
    assert_eq!(list.insert_with_level(4, 2), Ok(()));
    for absent in [1, 3, 5, 7] {
        assert_eq!(list.delete(&absent), Err(SkipListError::NotFound));
        assert_eq!(list.size(), 3);
        assert_eq!(list.height(), 3);
        assert_eq!(collect(list.traverse()), vec![2, 4, 6]);
        assert_eq!(collect(list.traverse_level(1)), vec![2, 4]);
        assert_eq!(collect(list.traverse_level(2)), vec![2]);
    }
    assert_eq!(list.delete(&4), Ok(()));
    assert_eq!(list.delete(&4), Err(SkipListError::NotFound));
    assert_eq!(collect(list.traverse()), vec![2, 6]);
}

#[test]
fn search_returns_the_stored_value() {
    let by_key = |a: &(i32, &'static str), b: &(i32, &'static str)| -> i32 { ascending(&a.0, &b.0) };
    let mut list = SkipList::new(by_key);
    let mut source = SeededSource::new(8);
    assert_eq!(list.insert((1, "one"), &mut source), Ok(()));
    assert_eq!(list.insert((2, "two"), &mut source), Ok(()));
    assert_eq!(list.insert((1, "uno"), &mut source), Err(SkipListError::DuplicateKey));
    assert_eq!(list.search(&(1, "uno")), Some(&(1, "one")));
    assert_eq!(list.search(&(2, "")), Some(&(2, "two")));
    assert_eq!(list.search(&(3, "")), None);
    assert_eq!(list.delete(&(1, "")), Ok(()));
    assert_eq!(list.search(&(1, "one")), None);
    assert_eq!(list.size(), 1);
}

#[test]
fn descending_comparator_reverses_the_order() {
    let mut list = SkipList::new(|a: &i32, b: &i32| ascending(b, a));
    let mut source = SeededSource::new(4);
    for value in [1, 5, 3, 2, 4] {
        assert_eq!(list.insert(value, &mut source), Ok(()));
    }
    let mut walk = list.traverse();
    let mut values = Vec::new();
    while let Some(value) = walk.next() {
        values.push(*value);
    }
    assert_eq!(values, vec![5, 4, 3, 2, 1]);
}

#[test]
fn traversal_starts_over_and_ends_for_good() {
    let mut list = SkipList::new(ascending);
    assert_eq!(list.insert_with_level(2, 1), Ok(()));
    assert_eq!(list.insert_with_level(1, 1), Ok(()));
    let mut walk = list.traverse();
    assert_eq!(walk.next(), Some(&1));
    let mut again = list.traverse();
    assert_eq!(again.next(), Some(&1));
    assert_eq!(walk.next(), Some(&2));
    assert_eq!(walk.next(), None);
    assert_eq!(walk.next(), None);
    assert_eq!(again.next(), Some(&2));
    assert_eq!(again.next(), None);
}

#[test]
fn freed_slots_are_used_again() {
    let mut list = SkipList::with_max_level(ascending, 4);
    let mut source = SeededSource::new(77);
    for round in 0..50 {
        for value in 0..20 {
            assert_eq!(list.insert(value + round, &mut source), Ok(()));
        }
        for value in 0..20 {
            assert_eq!(list.delete(&(value + round)), Ok(()));
        }
        assert_eq!(list.size(), 0);
        assert_eq!(list.height(), 0);
    }
    assert_eq!(list.insert(1, &mut source), Ok(()));
    assert_eq!(collect(list.traverse()), vec![1]);
}
