use ai_lmao::search::HasZero;
use ai_lmao::search::SearchResult;
use std::cmp::Ordering;

fn result(node: u32, cost: u16, path: Vec<u32>) -> SearchResult<u32, u16> {
    SearchResult { node, cost, path }
}

#[test]
fn zero_is_zero() {
    assert_eq!(<u16 as HasZero>::zero(), 0);
    assert_eq!(<u32 as HasZero>::zero(), 0);
    assert_eq!(<u64 as HasZero>::zero(), 0);
}

#[test]
fn plus_adds() {
    assert_eq!(HasZero::plus(140u16, 99u16), 239);
    assert_eq!(HasZero::plus(70_000u32, 5u32), 70_005);
    assert_eq!(HasZero::plus(5_000_000_000u64, 1u64), 5_000_000_001);
    assert_eq!(HasZero::plus(65_535u16, 0u16), 65_535);
}

#[test]
fn checked_plus_adds_where_the_sum_can_be_held() {
    assert_eq!(HasZero::checked_plus(140u16, 99u16), Some(239));
    assert_eq!(HasZero::checked_plus(65_535u16, 0u16), Some(65_535));
    assert_eq!(HasZero::checked_plus(65_535u16, 1u16), None);
    assert_eq!(HasZero::checked_plus(u32::MAX, 1u32), None);
    assert_eq!(HasZero::checked_plus(u64::MAX - 1, 1u64), Some(u64::MAX));
    assert_eq!(HasZero::checked_plus(u64::MAX, u64::MAX), None);
}

#[test]
fn less_is_strict() {
    assert!(HasZero::less(3u16, 4u16));
    assert!(!HasZero::less(4u16, 4u16));
    assert!(!HasZero::less(5u16, 4u16));
    assert!(HasZero::less(0u64, 1u64));
    assert!(!HasZero::less(7u32, 2u32));
}

#[test]
fn results_are_equal_by_cost_alone() {
    let a = result(1, 10, vec![0, 1]);
    let b = result(2, 10, vec![0, 3, 2]);
    let c = result(1, 11, vec![0, 1]);
    assert!(a == b);
    assert!(a != c);
}

#[test]
fn results_are_ordered_by_cost_alone() {
    let a = result(9, 10, vec![9]);
    let b = result(1, 12, vec![1]);
    assert!(a < b);
    assert!(b > a);
    assert!(a <= a);
    assert_eq!(a.partial_cmp(&b), Some(Ordering::Less));
    assert_eq!(b.partial_cmp(&a), Some(Ordering::Greater));
    assert_eq!(a.partial_cmp(&result(4, 10, vec![])), Some(Ordering::Equal));
}

#[test]
fn at_start_stands_still() {
    let first: SearchResult<u32, u16> = SearchResult::at_start(7);
    assert_eq!(first.node, 7);
    assert_eq!(first.cost, 0);
    assert_eq!(first.path, vec![7]);
}

#[test]
fn step_to_extends_a_copy_of_the_path() {
    let parent = result(2, 10, vec![1, 2]);
    let child = parent.step_to(5, 17);
    assert_eq!(child.node, 5);
    assert_eq!(child.cost, 17);
    assert_eq!(child.path, vec![1, 2, 5]);
    assert_eq!(parent.path, vec![1, 2]);
}

#[test]
fn duplicate_copies_all_fields() {
    let first = result(2, 10, vec![1, 2]);
    let copy = first.duplicate();
    assert_eq!(copy.node, 2);
    assert_eq!(copy.cost, 10);
    assert_eq!(copy.path, vec![1, 2]);
}
