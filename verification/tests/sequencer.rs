//! Tests for the retaining sequencer.

use impaired::Comparison;
use impaired::Comparisons;
use impaired::Item;

/// The canonical key of a comparison: its two handles in ascending order.
fn key(c: &Comparison) -> (u64, u64) {
    if c.left.0 <= c.right.0 {
        (c.left.0, c.right.0)
    } else {
        (c.right.0, c.left.0)
    }
}

/// Items 1..=n.
fn items_up_to(n: u64) -> Vec<Item> {
    let mut items: Vec<Item> = Vec::new();
    for id in 1..=n {
        items.push(Item(id));
    }
    items
}

#[test]
fn retain_item_iterator_with_tracking() {
    let item1 = Item(1);
    let item2 = Item(2);
    let item3 = Item(3);
    let items = vec![item1, item2, item3];
    let comparisons = Comparisons::new(&items);
    let mut retain_item_iterator = comparisons.retain_item_iterator();

    let (comparison1, result_tracker) = retain_item_iterator.next().unwrap();
    result_tracker.winner(&mut retain_item_iterator, comparison1.left);

    let (comparison2, result_tracker) = retain_item_iterator.next().unwrap();
    assert!(comparison2.left == comparison1.left || comparison2.right == comparison1.left);
    // We want to explicitly track the same winner as in `comparison1`, so this is not a typo!
    result_tracker.winner(&mut retain_item_iterator, comparison1.left);

    let (comparison3, _) = retain_item_iterator.next().unwrap();
    assert!(comparison3.left != comparison1.left && comparison3.right != comparison1.left);
    assert!(
        comparison3.left == comparison2.left
            || comparison3.right == comparison2.left
            || comparison3.left == comparison2.right
            || comparison3.right == comparison2.right
    );

    assert!(retain_item_iterator.next().is_none());
}

#[test]
fn retain_item_iterator_without_tracking() {
    let item1 = Item(1);
    let item2 = Item(2);
    let item3 = Item(3);
    let item4 = Item(4);
    let item5 = Item(5);
    let items = vec![item1, item2, item3, item4, item5];
    let comparisons = Comparisons::new(&items);
    let mut retain_item_iterator = comparisons.retain_item_iterator();
    let mut previous_comparison: Option<Comparison> = None;
    while let Some((comparison, result_tracker)) = retain_item_iterator.next() {
        if let Some(previous_comparison) = previous_comparison {
            assert!(
                comparison.left == previous_comparison.left
                    || comparison.right == previous_comparison.left
                    || comparison.left == previous_comparison.right
                    || comparison.right == previous_comparison.right
            );
        }
        previous_comparison.replace(comparison);
        result_tracker.winner(&mut retain_item_iterator, comparison.left);
    }
}

#[test]
fn driving_to_completion_visits_every_pair_exactly_once() {
    for n in 2u64..=7 {
        let items = items_up_to(n);
        let comparisons = Comparisons::new(&items);
        let total = comparisons.len();
        let mut iterator = comparisons.retain_item_iterator();

        let mut visited: Vec<(u64, u64)> = Vec::new();
        while let Some((comparison, tracker)) = iterator.next() {
            visited.push(key(&comparison));
            // Always report a winner: the item with the larger handle.
            let winner = if comparison.left.0 > comparison.right.0 {
                comparison.left
            } else {
                comparison.right
            };
            tracker.winner(&mut iterator, winner);
        }

        assert_eq!(visited.len(), total);
        let mut sorted = visited.clone();
        sorted.sort();
        sorted.dedup();
        assert_eq!(sorted.len(), total, "a pair was repeated for n = {}", n);
        // Every unordered combination of two distinct handles appears.
        let mut expected: Vec<(u64, u64)> = Vec::new();
        for a in 1..=n {
            for b in (a + 1)..=n {
                expected.push((a, b));
            }
        }
        assert_eq!(sorted, expected);
        // Exhaustion is permanent.
        assert!(iterator.next().is_none());
        assert!(iterator.next().is_none());
        assert!(iterator.next().is_none());
    }
}

#[test]
fn a_reported_winner_with_pairs_left_stays_on() {
    let items = items_up_to(6);
    let comparisons = Comparisons::new(&items);
    let mut iterator = comparisons.retain_item_iterator();

    let mut remaining: Vec<(u64, u64)> = Vec::new();
    for a in 1u64..=6 {
        for b in (a + 1)..=6 {
            remaining.push((a, b));
        }
    }

    let mut round: usize = 0;
    let mut last_winner: Option<Item> = None;
    while let Some((comparison, tracker)) = iterator.next() {
        if let Some(winner) = last_winner {
            let winner_had_pairs_left = remaining
                .iter()
                .any(|k| k.0 == winner.0 || k.1 == winner.0);
            if winner_had_pairs_left {
                assert!(
                    comparison.left == winner || comparison.right == winner,
                    "the winner did not stay on although it had pairs left"
                );
            }
        }
        remaining.retain(|k| *k != key(&comparison));
        // Alternate which side wins, to exercise both anchor roles.
        let winner = if round % 2 == 0 {
            comparison.left
        } else {
            comparison.right
        };
        tracker.winner(&mut iterator, winner);
        last_winner = Some(winner);
        round += 1;
    }
    assert!(remaining.is_empty());
    assert_eq!(round, 15);
}

#[test]
fn single_item_has_nothing_to_compare() {
    let items = vec![Item(1)];
    let comparisons = Comparisons::new(&items);
    assert_eq!(comparisons.len(), 0);
    let mut iterator = comparisons.retain_item_iterator();
    assert!(iterator.next().is_none());
}

#[test]
fn empty_collection_has_nothing_to_compare() {
    let items: Vec<Item> = Vec::new();
    let comparisons = Comparisons::new(&items);
    assert_eq!(comparisons.len(), 0);
    let mut iterator = comparisons.retain_item_iterator();
    assert!(iterator.next().is_none());
    assert!(iterator.next().is_none());
}

#[test]
fn five_items_with_left_winners_terminate_after_ten_pairs() {
    let items = items_up_to(5);
    let comparisons = Comparisons::new(&items);
    let mut iterator = comparisons.retain_item_iterator();

    let mut remaining: Vec<(u64, u64)> = Vec::new();
    for a in 1u64..=5 {
        for b in (a + 1)..=5 {
            remaining.push((a, b));
        }
    }

    let mut count: usize = 0;
    let mut last_winner: Option<Item> = None;
    while let Some((comparison, tracker)) = iterator.next() {
        if let Some(winner) = last_winner {
            let winner_had_pairs_left = remaining
                .iter()
                .any(|k| k.0 == winner.0 || k.1 == winner.0);
            if winner_had_pairs_left {
                assert!(comparison.left == winner || comparison.right == winner);
            }
        }
        remaining.retain(|k| *k != key(&comparison));
        // Always report the left member of the emitted pair as the winner.
        tracker.winner(&mut iterator, comparison.left);
        last_winner = Some(comparison.left);
        count += 1;
    }
    assert_eq!(count, 10);
    assert!(remaining.is_empty());
    assert!(iterator.next().is_none());
}

#[test]
fn winner_can_be_reported_on_the_iterator_directly() {
    let items = items_up_to(3);
    let comparisons = Comparisons::new(&items);
    let mut iterator = comparisons.retain_item_iterator();

    let (comparison1, _) = iterator.next().unwrap();
    iterator.winner(comparison1.left);
    let (comparison2, _) = iterator.next().unwrap();
    assert!(comparison2.left == comparison1.left || comparison2.right == comparison1.left);
}

#[test]
fn without_any_report_one_previous_item_is_retained() {
    let items = items_up_to(4);
    let comparisons = Comparisons::new(&items);
    let mut iterator = comparisons.retain_item_iterator();

    let mut previous: Option<Comparison> = None;
    let mut count: usize = 0;
    while let Some((comparison, _)) = iterator.next() {
        if let Some(prev) = previous {
            assert!(
                comparison.left == prev.left
                    || comparison.right == prev.left
                    || comparison.left == prev.right
                    || comparison.right == prev.right
            );
        }
        previous = Some(comparison);
        count += 1;
    }
    assert_eq!(count, 6);
}
