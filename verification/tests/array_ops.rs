use core::cmp::Ordering;
use sorting_animations::array::{ArrayState, Step};
use sorting_animations::gui::DisplayMode;

#[test]
fn step_contains_reports_recorded_indices() {
    assert!(Step::ComparisonTwo(1, 4).contains(1));
    assert!(Step::ComparisonTwo(1, 4).contains(4));
    assert!(!Step::ComparisonTwo(1, 4).contains(2));
    assert!(Step::Access(7).contains(7));
    assert!(!Step::Access(7).contains(0));
    assert!(!Step::Idle.contains(0));
}

#[test]
fn step_kind_predicates() {
    assert!(Step::Comparison(0).is_comparison());
    assert!(Step::ComparisonTwo(0, 1).is_comparison());
    assert!(!Step::Access(0).is_comparison());
    assert!(Step::Access(0).is_access());
    assert!(Step::AccessTwo(0, 1).is_access());
    assert!(!Step::Comparison(0).is_access());
    assert!(!Step::Idle.is_comparison());
    assert!(!Step::Idle.is_access());
}

#[test]
fn step_values_lists_indices_in_order() {
    assert_eq!(Step::ComparisonTwo(3, 5).values(), vec![3, 5]);
    assert_eq!(Step::AccessTwo(5, 3).values(), vec![5, 3]);
    assert_eq!(Step::Comparison(2).values(), vec![2]);
    assert_eq!(Step::Access(9).values(), vec![9]);
    assert_eq!(Step::Idle.values(), Vec::<usize>::new());
}

#[test]
fn new_array_holds_one_up_to_size() {
    let a = ArrayState::new(5, DisplayMode::Default);
    assert_eq!(a.values(), vec![1, 2, 3, 4, 5]);
    assert_eq!(a.size(), 5);
    assert_eq!(a.last_step(), Step::Idle);
    assert_eq!(a.comparisons(), 0);
    assert_eq!(a.reads(), 0);
    assert_eq!(a.writes(), 0);
    assert_eq!(a.get_view(), DisplayMode::Default);
}

#[test]
fn counters_follow_declared_increments() {
    let mut a = ArrayState::new(4, DisplayMode::Default);
    assert_eq!(a.cmp_two(0, 1), Ordering::Less);
    assert_eq!(a.comparisons(), 1);
    assert_eq!(a.reads(), 2);
    assert_eq!(a.writes(), 0);
    assert_eq!(a.last_step(), Step::ComparisonTwo(0, 1));

    assert_eq!(a.cmp(2, 3), Ordering::Equal);
    assert_eq!(a.comparisons(), 2);
    assert_eq!(a.reads(), 3);
    assert_eq!(a.last_step(), Step::Comparison(2));

    a.swap(0, 3);
    assert_eq!(a.values(), vec![4, 2, 3, 1]);
    assert_eq!(a.reads(), 5);
    assert_eq!(a.writes(), 2);
    assert_eq!(a.comparisons(), 2);
    assert_eq!(a.last_step(), Step::AccessTwo(0, 3));

    assert_eq!(a.get(0), 4);
    assert_eq!(a.reads(), 6);
    assert_eq!(a.last_step(), Step::Access(0));

    a.set(1, 9);
    assert_eq!(a.values(), vec![4, 9, 3, 1]);
    assert_eq!(a.writes(), 3);
    assert_eq!(a.reads(), 6);
    assert_eq!(a.last_step(), Step::Access(1));

    assert_eq!(a.cmp_two(1, 0), Ordering::Greater);
    assert_eq!(a.cmp(1, 2), Ordering::Greater);
    assert_eq!(a.cmp(3, 8), Ordering::Less);
}

#[test]
fn reset_stats_zeroes_counters_and_keeps_values() {
    let mut a = ArrayState::new(3, DisplayMode::Colors);
    a.swap(0, 2);
    a.reset_stats();
    assert_eq!(a.comparisons(), 0);
    assert_eq!(a.reads(), 0);
    assert_eq!(a.writes(), 0);
    assert_eq!(a.values(), vec![3, 2, 1]);
    assert_eq!(a.last_step(), Step::AccessTwo(0, 2));
    assert_eq!(a.get_view(), DisplayMode::Colors);
}

#[test]
fn clear_step_resets_only_the_step() {
    let mut a = ArrayState::new(3, DisplayMode::Default);
    a.get(1);
    a.clear_step();
    assert_eq!(a.last_step(), Step::Idle);
    assert_eq!(a.reads(), 1);
}

#[test]
fn initialize_refills_and_keeps_counters() {
    let mut a = ArrayState::new(3, DisplayMode::Default);
    a.set(0, 7);
    a.set(1, 7);
    a.initialize(5);
    assert_eq!(a.values(), vec![1, 2, 3, 4, 5]);
    assert_eq!(a.last_step(), Step::Idle);
    assert_eq!(a.writes(), 2);
}

#[test]
fn reverse_reverses_and_clears_step() {
    let mut a = ArrayState::new(5, DisplayMode::Default);
    a.get(0);
    a.reverse();
    assert_eq!(a.values(), vec![5, 4, 3, 2, 1]);
    assert_eq!(a.last_step(), Step::Idle);
}

#[test]
fn shuffle_keeps_the_same_values() {
    let mut a = ArrayState::new(50, DisplayMode::Default);
    a.shuffle();
    assert_eq!(a.last_step(), Step::Idle);
    let mut vals = a.values();
    vals.sort();
    assert_eq!(vals, (1..=50).collect::<Vec<usize>>());
}

#[test]
fn shuffle_rearranges_a_long_run() {
    let mut a = ArrayState::new(50, DisplayMode::Default);
    a.shuffle();
    assert_ne!(a.values(), (1..=50).collect::<Vec<usize>>());
}

#[test]
fn set_view_changes_only_the_mode() {
    let mut a = ArrayState::new(3, DisplayMode::Default);
    a.set_view(DisplayMode::Circle);
    assert_eq!(a.get_view(), DisplayMode::Circle);
    assert_eq!(a.values(), vec![1, 2, 3]);
}

#[test]
fn display_mode_values_and_default() {
    assert_eq!(
        DisplayMode::values(),
        vec![DisplayMode::Default, DisplayMode::Colors, DisplayMode::Circle]
    );
    assert_eq!(DisplayMode::default(), DisplayMode::Default);
}
