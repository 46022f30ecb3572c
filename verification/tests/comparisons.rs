//! Tests for items, comparisons and the exhaustive pair set.

use impaired::Comparison;
use impaired::Comparisons;
use impaired::Item;

/// The canonical key of a comparison: its two handles in ascending order.
fn key(c: &Comparison) -> (u64, u64) {
    if c.left.0 <= c.right.0 {
        (c.left.0, c.right.0)
    } else {
        (c.right.0, c.left.0)
    }
}

#[test]
fn comparison_order_does_not_matter() {
    let item1 = Item(1);
    let item2 = Item(2);
    let comparison1 = Comparison::new(item1, item2);
    let comparison2 = Comparison::new(item2, item1);

    assert_eq!(comparison1, comparison2);
    let mut set = Comparisons::default();
    set.insert(comparison1);
    set.insert(comparison2);
    assert_eq!(set.len(), 1);

    assert!(set.contains(&comparison1));
    assert!(set.contains(&comparison2));

    let stored_comparison1 = set.get(0);
    let stored_comparison2 = set.get(0);
    assert_eq!(stored_comparison1.left, stored_comparison2.left);
    assert_eq!(stored_comparison1.right, stored_comparison2.right);
}

#[test]
fn lib_comparison_order_does_not_matter() {
    let item1 = Item(1);
    let item2 = Item(2);
    let comparison1 = Comparison::new(item1, item2);
    let comparison2 = Comparison::new(item2, item1);

    assert_eq!(comparison1, comparison2);
    let mut set = Comparisons::default();
    set.insert(comparison1);
    set.insert(comparison2);
    assert_eq!(set.len(), 1);

    assert!(set.contains(&comparison1));
    assert!(set.contains(&comparison2));

    let stored_comparison1 = set.get(0);
    let stored_comparison2 = set.get(0);
    assert_eq!(stored_comparison1.left, stored_comparison2.left);
    assert_eq!(stored_comparison1.right, stored_comparison2.right);
}

#[test]
fn comparison_equality_is_order_independent_for_all_small_pairs() {
    for a in 1u64..=6 {
        for b in 1u64..=6 {
            if a != b {
                let c1 = Comparison::new(Item(a), Item(b));
                let c2 = Comparison::new(Item(b), Item(a));
                assert_eq!(c1, c2);
                assert_eq!(c1, c1);
                assert_eq!(key(&c1), key(&c2));
            }
        }
    }
}

#[test]
fn pair_set_sizes_follow_the_closed_formula() {
    for n in 0u64..=6 {
        let mut items: Vec<Item> = Vec::new();
        for id in 1..=n {
            items.push(Item(id));
        }
        let comparisons = Comparisons::new(&items);
        let expected: usize = (n * n.saturating_sub(1) / 2) as usize;
        assert_eq!(comparisons.len(), expected);
    }
}

#[test]
fn pair_set_holds_every_combination_exactly_once() {
    let items = vec![Item(1), Item(2), Item(3), Item(4)];
    let comparisons = Comparisons::new(&items);
    assert_eq!(comparisons.len(), 6);

    let mut keys: Vec<(u64, u64)> = Vec::new();
    let mut i: usize = 0;
    while i < comparisons.len() {
        let c = comparisons.get(i);
        assert_ne!(c.left, c.right);
        keys.push(key(&c));
        i += 1;
    }
    keys.sort();
    let expected = vec![(1, 2), (1, 3), (1, 4), (2, 3), (2, 4), (3, 4)];
    assert_eq!(keys, expected);
}

#[test]
fn fewer_than_two_items_yield_no_pairs() {
    let no_items: Vec<Item> = Vec::new();
    assert_eq!(Comparisons::new(&no_items).len(), 0);
    let one_item = vec![Item(7)];
    assert_eq!(Comparisons::new(&one_item).len(), 0);
}

#[test]
fn duplicate_items_collapse_their_pairs() {
    let items = vec![Item(1), Item(1), Item(2)];
    let comparisons = Comparisons::new(&items);
    // The two copies of item 1 induce one collapsed pair against item 2
    // plus one self-pair, instead of the three pairs of distinct items.
    assert_eq!(comparisons.len(), 2);
}

#[test]
fn insert_reports_whether_the_set_grew() {
    let mut set = Comparisons::default();
    assert!(set.insert(Comparison::new(Item(1), Item(2))));
    assert!(!set.insert(Comparison::new(Item(2), Item(1))));
    assert!(set.insert(Comparison::new(Item(1), Item(3))));
    assert_eq!(set.len(), 2);
    assert!(!set.contains(&Comparison::new(Item(2), Item(3))));
}

#[test]
fn other_returns_the_opposite_member() {
    let c = Comparison::new(Item(1), Item(2));
    assert_eq!(c.other(Item(1)), Item(2));
    assert_eq!(c.other(Item(2)), Item(1));
}
