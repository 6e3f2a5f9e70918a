use skip_list::{draw_level, Node, PromotionSource, SeededSource, SkipList, SkipListError, DEFAULT_MAX_LEVEL};

fn ascending(a: &u64, b: &u64) -> i32 {
    if a < b {
        -1
    } else if a > b {
        1
    } else {
        0
    }
}

fn level_of<F: Fn(&u64, &u64) -> i32>(list: &SkipList<u64, F>, level: u32) -> Vec<u64> {
    let mut walk = list.traverse_level(level);
    let mut values = Vec::new();
    while let Some(value) = walk.next() {
        values.push(*value);
    }
    values
}

/// Hands out the decisions of a fixed list, then refuses.
struct Fixed {
    decisions: Vec<bool>,
    asked: usize,
}

impl PromotionSource for Fixed {
    fn promote(&mut self) -> bool {
        let decision = self.decisions.get(self.asked).copied().unwrap_or(false);
        self.asked += 1;
        decision
    }
}

#[test]
fn new_node_has_no_levels() {
    let node = Node::new(17u64);
    assert_eq!(node.level(), 0);
    assert_eq!(*node.value(), 17);
    assert!(node.next_list().is_empty());
}

#[test]
fn node_gains_and_changes_links() {
    let mut node = Node::new("a");
    node.raise(None);
    node.raise(Some(4));
    assert_eq!(node.level(), 2);
    assert_eq!(node.next(0), None);
    assert_eq!(node.next(1), Some(4));
    node.relink(0, Some(9));
    node.relink(1, None);
    assert_eq!(node.next_list(), &vec![Some(9), None]);
    assert_eq!(*node.value(), "a");
}

#[test]
fn default_cap_is_thirty_two() {
    let list = SkipList::new(ascending);
    assert_eq!(DEFAULT_MAX_LEVEL, 32);
    assert_eq!(list.max_level(), 32);
}

#[test]
fn a_cap_of_zero_is_taken_as_one() {
    let mut list = SkipList::with_max_level(ascending, 0);
    assert_eq!(list.max_level(), 1);
    let mut source = SeededSource::new(6);
    for value in [3u64, 1, 2] {
        assert_eq!(list.insert(value, &mut source), Ok(()));
        assert_eq!(list.height(), 1);
    }
    assert_eq!(level_of(&list, 0), vec![1, 2, 3]);
    assert_eq!(level_of(&list, 1), Vec::<u64>::new());
}

#[test]
fn levels_follow_the_towers() {
    let mut list = SkipList::with_max_level(ascending, 5);
    assert_eq!(list.insert_with_level(30, 2), Ok(()));
    assert_eq!(list.insert_with_level(10, 1), Ok(()));
    assert_eq!(list.insert_with_level(50, 4), Ok(()));
    assert_eq!(list.insert_with_level(20, 3), Ok(()));
    assert_eq!(list.insert_with_level(40, 0), Ok(()));
    assert_eq!(list.insert_with_level(60, 9), Ok(()));
    assert_eq!(list.height(), 5);
    assert_eq!(list.size(), 6);
    assert_eq!(level_of(&list, 0), vec![10, 20, 30, 40, 50, 60]);
    assert_eq!(level_of(&list, 1), vec![20, 30, 50, 60]);
    assert_eq!(level_of(&list, 2), vec![20, 50, 60]);
    assert_eq!(level_of(&list, 3), vec![50, 60]);
    assert_eq!(level_of(&list, 4), vec![60]);
    assert_eq!(list.delete(&60), Ok(()));
    assert_eq!(list.height(), 4);
    assert_eq!(list.delete(&20), Ok(()));
    assert_eq!(level_of(&list, 0), vec![10, 30, 40, 50]);
    assert_eq!(level_of(&list, 1), vec![30, 50]);
    assert_eq!(level_of(&list, 2), vec![50]);
    assert_eq!(level_of(&list, 3), vec![50]);
    assert_eq!(level_of(&list, 4), Vec::<u64>::new());
    assert_eq!(list.delete(&50), Ok(()));
    assert_eq!(list.height(), 2);
    assert_eq!(list.delete(&30), Ok(()));
    assert_eq!(list.height(), 1);
    assert_eq!(list.search(&40), Some(&40));
    assert_eq!(list.search(&30), None);
}

#[test]
fn rejected_insert_keeps_the_levels() {
    let mut list = SkipList::with_max_level(ascending, 4);
    assert_eq!(list.insert_with_level(7, 1), Ok(()));
    assert_eq!(list.insert_with_level(7, 4), Err(SkipListError::DuplicateKey));
    assert_eq!(list.height(), 1);
    assert_eq!(list.size(), 1);
    assert_eq!(level_of(&list, 1), Vec::<u64>::new());
}

#[test]
fn rejected_insert_draws_nothing() {
    let mut list = SkipList::new(ascending);
    let mut source = Fixed { decisions: vec![true, true, false], asked: 0 };
    assert_eq!(list.insert(7, &mut source), Ok(()));
    assert_eq!(source.asked, 3);
    assert_eq!(list.height(), 3);
    assert_eq!(list.insert(7, &mut source), Err(SkipListError::DuplicateKey));
    assert_eq!(source.asked, 3);
}

#[test]
fn drawn_level_counts_the_promotions() {
    let mut source = Fixed { decisions: vec![true, true, true, false, true], asked: 0 };
    assert_eq!(draw_level(&mut source, 32), 4);
    assert_eq!(source.asked, 4);
    assert_eq!(draw_level(&mut source, 32), 2);
    assert_eq!(draw_level(&mut source, 32), 1);
}

#[test]
fn drawn_level_stops_at_the_cap() {
    let mut source = Fixed { decisions: vec![true; 40], asked: 0 };
    assert_eq!(draw_level(&mut source, 5), 5);
    assert_eq!(source.asked, 4);
    assert_eq!(draw_level(&mut source, 1), 1);
    assert_eq!(draw_level(&mut source, 0), 1);
    assert_eq!(source.asked, 4);
}

#[test]
fn seeded_source_repeats_itself() {
    let mut first = SeededSource::new(2463534242);
    let mut second = SeededSource::new(2463534242);
    let mut promoted = 0;
    for _ in 0..1000 {
        let decision = first.promote();
        assert_eq!(decision, second.promote());
        if decision {
            promoted += 1;
        }
    }
    assert!(promoted > 400 && promoted < 600);
}

#[test]
fn seeded_source_follows_its_generator() {
    let mut source = SeededSource::new(1);
    let mut state: u64 = 1;
    for _ in 0..64 {
        state ^= state << 13;
        state ^= state >> 7;
        state ^= state << 17;
        assert_eq!(source.promote(), state >> 63 == 1);
    }
    let mut zero = SeededSource::new(0);
    let mut state: u64 = 0x9E37_79B9_7F4A_7C15;
    state ^= state << 13;
    state ^= state >> 7;
    state ^= state << 17;
    assert_eq!(zero.promote(), state >> 63 == 1);
}

#[test]
fn towers_are_not_all_alike() {
    let mut list = SkipList::new(ascending);
    let mut source = SeededSource::new(31337);
    for value in 0..1000u64 {
        assert_eq!(list.insert(value, &mut source), Ok(()));
    }
    let lowest = level_of(&list, 0).len();
    let second = level_of(&list, 1).len();
    assert_eq!(lowest, 1000);
    assert!(second > 350 && second < 650);
    assert!(list.height() >= 5);
}
