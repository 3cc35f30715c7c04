use rangetree::RangeTree;
use std::cmp::Ordering;
use std::collections::hash_map::DefaultHasher;
use std::hash::{Hash, Hasher};
use std::ops::Range;

/// A key that is ordered by `at` alone: two keys may be level and yet differ in `tag`.
#[derive(Clone, Copy, Debug)]
struct Tagged {
    at: i32,
    tag: u8,
}

impl PartialEq for Tagged {
    fn eq(&self, other: &Self) -> bool {
        self.at == other.at
    }
}

impl Eq for Tagged {}

impl PartialOrd for Tagged {
    fn partial_cmp(&self, other: &Self) -> Option<Ordering> {
        Some(self.cmp(other))
    }
}

impl Ord for Tagged {
    fn cmp(&self, other: &Self) -> Ordering {
        self.at.cmp(&other.at)
    }
}

fn tagged(at: i32, tag: u8) -> Tagged {
    Tagged { at, tag }
}

fn three() -> RangeTree<i32, i32> {
    let mut tree = RangeTree::new();
    tree.insert(0..100, 111);
    tree.insert(200..300, 222);
    tree.insert(500..600, 333);
    tree
}

fn assert_ordered(tree: &RangeTree<i32, i32>) {
    let items = tree.iter();
    for (range, _) in &items {
        assert!(range.start < range.end);
    }
    for pair in items.windows(2) {
        assert!(pair[0].0.end <= pair[1].0.start);
    }
}

fn hash_of(tree: &RangeTree<i32, i32>) -> u64 {
    let mut hasher = DefaultHasher::new();
    tree.hash(&mut hasher);
    hasher.finish()
}

#[test]
fn new_tree_is_empty() {
    let tree: RangeTree<i32, i32> = RangeTree::new();
    assert!(tree.iter().is_empty());
    assert_eq!(tree.get(0), None);
    assert!(tree == RangeTree::default());
}

#[test]
fn get_finds_the_covering_segment() {
    let tree = three();
    assert_eq!(tree.get(0), Some((0..100, &111)));
    assert_eq!(tree.get(99), Some((0..100, &111)));
    assert_eq!(tree.get(250), Some((200..300, &222)));
    assert_eq!(tree.get(599), Some((500..600, &333)));
}

#[test]
fn get_misses_gaps_and_ends() {
    let tree = three();
    assert_eq!(tree.get(-1), None);
    assert_eq!(tree.get(100), None);
    assert_eq!(tree.get(150), None);
    assert_eq!(tree.get(199), None);
    assert_eq!(tree.get(300), None);
    assert_eq!(tree.get(600), None);
    assert_eq!(tree.get(i32::MAX), None);
}

#[test]
fn insert_binds_every_key_of_the_range() {
    let mut tree = three();
    tree.insert(50..550, 444);
    for key in [50, 51, 100, 150, 200, 299, 300, 499, 500, 549] {
        assert_eq!(tree.get(key), Some((50..550, &444)));
    }
}

#[test]
fn insert_keeps_keys_outside_the_range() {
    let mut tree = three();
    tree.insert(50..550, 444);
    assert_eq!(tree.get(-5), None);
    assert_eq!(tree.get(0), Some((0..50, &111)));
    assert_eq!(tree.get(49), Some((0..50, &111)));
    assert_eq!(tree.get(550), Some((550..600, &333)));
    assert_eq!(tree.get(599), Some((550..600, &333)));
    assert_eq!(tree.get(600), None);
}

#[test]
fn insert_twice_is_insert_once() {
    for range in [50..550, 220..280, 0..100, 100..200, 0..600, -10..700, 400..400, 9..3] {
        let mut once = three();
        once.insert(range.clone(), 444);
        let mut twice = once.clone();
        twice.insert(range.clone(), 444);
        assert!(once == twice);
        assert_eq!(once.iter(), twice.iter());
    }
}

#[test]
fn remove_unbinds_every_key_of_the_range() {
    let mut tree = three();
    tree.remove(50..550);
    for key in [50, 99, 100, 200, 250, 300, 499, 500, 549] {
        assert_eq!(tree.get(key), None);
    }
}

#[test]
fn remove_keeps_keys_outside_the_range() {
    let mut tree = three();
    tree.remove(50..550);
    assert_eq!(tree.get(0), Some((0..50, &111)));
    assert_eq!(tree.get(49), Some((0..50, &111)));
    assert_eq!(tree.get(550), Some((550..600, &333)));
    assert_eq!(tree.get(599), Some((550..600, &333)));
    assert_eq!(tree.get(600), None);
}

#[test]
fn degenerate_ranges_change_nothing() {
    let tree = three();
    for range in [400..400, 400..350, 50..50, 250..0, 0..0, 100..0, 600..-600] {
        let mut other = tree.clone();
        other.insert(range.clone(), 555);
        assert!(other == tree);
        other.remove(range);
        assert!(other == tree);
    }
}

#[test]
fn segments_stay_ascending_and_disjoint() {
    let mut tree = RangeTree::new();
    let mut seed: i32 = 7;
    for step in 0..400 {
        seed = (seed * 73 + 41) % 1009;
        let start = seed % 200;
        seed = (seed * 73 + 41) % 1009;
        let end = start + seed % 40 - 5;
        if step % 3 == 2 {
            tree.remove(start..end);
        } else {
            tree.insert(start..end, step);
        }
        assert_ordered(&tree);
    }
    assert!(!tree.iter().is_empty());
}

#[test]
fn insert_at_the_start_of_a_longer_segment() {
    let mut tree = RangeTree::new();
    tree.insert(0..100, 1);
    tree.insert(0..50, 2);
    assert_eq!(tree.iter(), vec![(0..50, &2), (50..100, &1)]);
}

#[test]
fn insert_at_the_start_of_a_shorter_segment() {
    let mut tree = RangeTree::new();
    tree.insert(0..50, 1);
    tree.insert(70..80, 3);
    tree.insert(0..100, 2);
    assert_eq!(tree.iter(), vec![(0..100, &2)]);
}

#[test]
fn insert_over_the_start_of_a_segment() {
    let mut tree = three();
    tree.insert(150..250, 444);
    assert_eq!(
        tree.iter(),
        vec![(0..100, &111), (150..250, &444), (250..300, &222), (500..600, &333)]
    );
}

#[test]
fn insert_between_segments_touches_neither() {
    let mut tree = three();
    tree.insert(100..200, 444);
    assert_eq!(
        tree.iter(),
        vec![(0..100, &111), (100..200, &444), (200..300, &222), (500..600, &333)]
    );
}

#[test]
fn equal_neighbours_are_not_merged() {
    let mut tree = RangeTree::new();
    tree.insert(0..10, 1);
    tree.insert(10..20, 1);
    assert_eq!(tree.iter(), vec![(0..10, &1), (10..20, &1)]);
    tree.insert(5..15, 1);
    assert_eq!(tree.iter(), vec![(0..5, &1), (5..15, &1), (15..20, &1)]);
}

#[test]
fn remove_a_whole_segment_and_more() {
    let mut tree = three();
    tree.remove(200..300);
    assert_eq!(tree.iter(), vec![(0..100, &111), (500..600, &333)]);
    let mut tree = three();
    tree.remove(200..400);
    assert_eq!(tree.iter(), vec![(0..100, &111), (500..600, &333)]);
    let mut tree = three();
    tree.remove(150..650);
    assert_eq!(tree.iter(), vec![(0..100, &111)]);
    let mut tree = three();
    tree.remove(-1..601);
    assert!(tree.iter().is_empty());
}

#[test]
fn remove_from_the_start_of_a_segment() {
    let mut tree = three();
    tree.remove(200..250);
    assert_eq!(
        tree.iter(),
        vec![(0..100, &111), (250..300, &222), (500..600, &333)]
    );
}

#[test]
fn remove_in_a_gap_changes_nothing() {
    let mut tree = three();
    tree.remove(100..200);
    assert!(tree == three());
    tree.remove(300..500);
    assert!(tree == three());
    tree.remove(600..900);
    assert!(tree == three());
}

#[test]
fn remove_picks_the_segments_inside_by_position() {
    let mut tree = RangeTree::new();
    for i in 0..5 {
        tree.insert(i * 10..i * 10 + 5, i);
    }
    tree.remove(20..36);
    assert_eq!(tree.iter(), vec![(0..5, &0), (10..15, &1), (40..45, &4)]);
}

#[test]
fn insert_over_more_segments_than_fit_inline() {
    let mut tree = RangeTree::new();
    for i in 0..20 {
        tree.insert(i * 10..i * 10 + 5, i);
    }
    assert_eq!(tree.iter().len(), 20);
    let mut all = tree.clone();
    all.insert(0..1000, 9);
    assert_eq!(all.iter(), vec![(0..1000, &9)]);
    let mut some = tree.clone();
    some.insert(12..183, 9);
    assert_eq!(
        some.iter(),
        vec![(0..5, &0), (10..12, &1), (12..183, &9), (183..185, &18), (190..195, &19)]
    );
}

#[test]
fn remove_over_more_segments_than_fit_inline() {
    let mut tree = RangeTree::new();
    for i in 0..20 {
        tree.insert(i * 10..i * 10 + 5, i);
    }
    tree.remove(12..183);
    assert_eq!(
        tree.iter(),
        vec![(0..5, &0), (10..12, &1), (183..185, &18), (190..195, &19)]
    );
}

#[test]
fn iter_has_one_item_for_each_segment() {
    let tree = three();
    assert_eq!(tree.iter().len(), 3);
    let mut other = tree.clone();
    other.insert(220..280, 444);
    assert_eq!(other.iter().len(), 5);
}

#[test]
fn iter_backwards_is_descending() {
    let tree = three();
    let back: Vec<(Range<i32>, &i32)> = tree.iter().into_iter().rev().collect();
    assert_eq!(back, vec![(500..600, &333), (200..300, &222), (0..100, &111)]);
}

#[test]
fn iter_mut_changes_values_in_place() {
    let mut tree = three();
    for (range, value) in tree.iter_mut() {
        *value += range.start;
    }
    assert_eq!(
        tree.iter(),
        vec![(0..100, &111), (200..300, &422), (500..600, &833)]
    );
}

#[test]
fn iter_mut_gives_the_ranges_in_order() {
    let mut tree = three();
    let ranges: Vec<Range<i32>> = tree.iter_mut().into_iter().map(|item| item.0).collect();
    assert_eq!(ranges, vec![0..100, 200..300, 500..600]);
    let back: Vec<i32> = tree.iter_mut().into_iter().rev().map(|item| *item.1).collect();
    assert_eq!(back, vec![333, 222, 111]);
}

#[test]
fn clone_is_independent() {
    let tree = three();
    let mut other = tree.clone();
    other.insert(0..600, 1);
    assert_eq!(
        tree.iter(),
        vec![(0..100, &111), (200..300, &222), (500..600, &333)]
    );
    assert_eq!(other.iter(), vec![(0..600, &1)]);
}

#[test]
fn trees_compare_by_their_segments() {
    let mut built = RangeTree::new();
    built.insert(500..600, 333);
    built.insert(0..300, 222);
    built.insert(0..100, 111);
    built.remove(100..200);
    assert!(built == three());
    assert_eq!(hash_of(&built), hash_of(&three()));
    let mut shorter = three();
    shorter.remove(599..600);
    assert!(shorter != three());
    assert!(shorter < three());
    let mut fewer = three();
    fewer.remove(500..600);
    assert!(fewer < three());
    let mut higher = three();
    higher.insert(0..100, 112);
    assert!(higher > three());
}

#[test]
fn keys_need_not_be_numbers() {
    let mut tree = RangeTree::new();
    tree.insert('a'..'n', "first");
    tree.insert('k'..'q', "second");
    assert_eq!(tree.iter(), vec![('a'..'k', &"first"), ('k'..'q', &"second")]);
    assert_eq!(tree.get('j'), Some(('a'..'k', &"first")));
    assert_eq!(tree.get('q'), None);
    tree.remove('c'..'d');
    assert_eq!(
        tree.iter(),
        vec![('a'..'c', &"first"), ('d'..'k', &"first"), ('k'..'q', &"second")]
    );
}

#[test]
fn a_split_segment_keeps_its_value_on_both_sides() {
    let mut tree = RangeTree::new();
    tree.insert(0..100, String::from("whole"));
    tree.remove(40..60);
    let whole = String::from("whole");
    assert_eq!(tree.iter(), vec![(0..40, &whole), (60..100, &whole)]);
    tree.insert(10..20, String::from("inner"));
    let inner = String::from("inner");
    assert_eq!(
        tree.iter(),
        vec![(0..10, &whole), (10..20, &inner), (20..40, &whole), (60..100, &whole)]
    );
}

#[test]
fn a_segment_that_begins_level_keeps_its_start() {
    let mut tree = RangeTree::new();
    tree.insert(tagged(0, 1)..tagged(100, 1), "old");
    tree.insert(tagged(0, 2)..tagged(50, 2), "new");
    let items = tree.iter();
    assert_eq!(items.len(), 2);
    assert_eq!(items[0].0.start.at, 0);
    assert_eq!(items[0].0.start.tag, 1);
    assert_eq!(items[0].0.end.at, 50);
    assert_eq!(items[0].0.end.tag, 2);
    assert_eq!(*items[0].1, "new");
    assert_eq!(items[1].0.start.at, 50);
    assert_eq!(items[1].0.start.tag, 2);
    assert_eq!(items[1].0.end.at, 100);
    assert_eq!(items[1].0.end.tag, 1);
    assert_eq!(*items[1].1, "old");
}

#[test]
fn a_segment_that_ends_level_is_left_alone() {
    let mut tree = RangeTree::new();
    tree.insert(tagged(0, 1)..tagged(50, 1), "low");
    tree.insert(tagged(100, 1)..tagged(150, 1), "high");
    tree.insert(tagged(50, 2)..tagged(100, 2), "mid");
    let items = tree.iter();
    assert_eq!(items.len(), 3);
    assert_eq!(items[0].0.end.tag, 1);
    assert_eq!(items[1].0.start.tag, 2);
    assert_eq!(items[1].0.end.tag, 2);
    assert_eq!(items[2].0.start.tag, 1);
    tree.remove(tagged(50, 3)..tagged(100, 3));
    let items = tree.iter();
    assert_eq!(items.len(), 2);
    assert_eq!(items[0].0.end.tag, 1);
    assert_eq!(items[1].0.start.tag, 1);
}

#[test]
fn remove_from_a_level_start_moves_the_start_up() {
    let mut tree = RangeTree::new();
    tree.insert(tagged(0, 1)..tagged(100, 1), "old");
    tree.remove(tagged(0, 2)..tagged(50, 2));
    let items = tree.iter();
    assert_eq!(items.len(), 1);
    assert_eq!(items[0].0.start.at, 50);
    assert_eq!(items[0].0.start.tag, 2);
    assert_eq!(items[0].0.end.tag, 1);
}
