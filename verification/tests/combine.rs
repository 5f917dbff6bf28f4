//! Tests of the Borda-style rank merge.

use quickbacktrack::combine;

#[test]
fn two_opposed_lists_tie_and_break_by_value() {
    // Scores: 1 gets 0 + 1 = 1, 2 gets 1 + 0 = 1: a tie, broken by the
    // value order.
    let merged = combine(vec![vec![1u8, 2], vec![2, 1]]);
    assert_eq!(merged, vec![1, 2]);
}

#[test]
fn three_lists_force_a_strict_order() {
    // Scores: 2 gets 0 + 0 + 1 = 1, 1 gets 1 + 1 + 0 = 2, so 2 comes
    // first (lowest aggregate score) and 1 last (most preferred).
    let merged = combine(vec![vec![2u8, 1], vec![2, 1], vec![1, 2]]);
    assert_eq!(merged, vec![2, 1]);
}

#[test]
fn order_of_input_lists_never_matters() {
    let a = vec![3u64, 1, 4];
    let b = vec![1u64, 5, 9, 2];
    let c = vec![6u64, 5, 3];
    let merged1 = combine(vec![a.clone(), b.clone(), c.clone()]);
    let merged2 = combine(vec![c.clone(), a.clone(), b.clone()]);
    let merged3 = combine(vec![b, c, a]);
    assert_eq!(merged1, merged2);
    assert_eq!(merged1, merged3);
}

#[test]
fn repeated_occurrences_in_one_list_add_up() {
    // 7 occurs at indices 0 and 2 of the first list: score 2.
    // 8 occurs at index 1: score 1. So 8 comes before 7.
    let merged = combine(vec![vec![7u8, 8, 7]]);
    assert_eq!(merged, vec![8, 7]);
}

#[test]
fn empty_input_gives_empty_output() {
    let merged = combine(Vec::<Vec<u8>>::new());
    assert!(merged.is_empty());
    let merged2 = combine(vec![Vec::<u8>::new(), Vec::<u8>::new()]);
    assert!(merged2.is_empty());
}

#[test]
fn absence_contributes_nothing() {
    // 5 appears only in the first list at index 1 (score 1); 4 appears in
    // both at indices 0 and 0 (score 0): 4 first, 5 last.
    let merged = combine(vec![vec![4u8, 5], vec![4]]);
    assert_eq!(merged, vec![4, 5]);
}
