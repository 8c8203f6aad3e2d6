use sorting_animations::array::ArrayState;
use sorting_animations::gate::{ArrayLock, Message};
use sorting_animations::gui::DisplayMode;
use sorting_animations::sort::Sort;

fn three_one_two() -> ArrayState {
    let mut a = ArrayState::new(3, DisplayMode::Default);
    a.swap(0, 2);
    a.swap(1, 2);
    a.reset_stats();
    a.clear_step();
    assert_eq!(a.values(), vec![3, 1, 2]);
    a
}

fn run_bubble_with(script: Vec<Message>) -> (bool, ArrayState) {
    let mut lock = ArrayLock::with_script(three_one_two(), script);
    let r = Sort::BubbleSort.sort(&mut lock, 3);
    (r.is_ok(), lock.into_state())
}

#[test]
fn no_budget_means_no_operation() {
    let (ok, a) = run_bubble_with(vec![]);
    assert!(!ok);
    assert_eq!(a.values(), vec![3, 1, 2]);
    assert_eq!(a.comparisons(), 0);
    assert_eq!(a.reads(), 0);
    assert_eq!(a.writes(), 0);
}

#[test]
fn kill_before_the_first_operation() {
    let (ok, a) = run_bubble_with(vec![Message::Kill]);
    assert!(!ok);
    assert_eq!(a.values(), vec![3, 1, 2]);
    assert_eq!(a.comparisons(), 0);
}

#[test]
fn each_step_is_exactly_one_operation() {
    // Bubble sort on [3,1,2]: compare, swap, compare, swap, compare, done.
    let (ok, a) = run_bubble_with(vec![Message::Step]);
    assert!(!ok);
    assert_eq!(a.values(), vec![3, 1, 2]);
    assert_eq!(a.comparisons(), 1);
    assert_eq!(a.writes(), 0);

    let (ok, a) = run_bubble_with(vec![Message::Step, Message::Step]);
    assert!(!ok);
    assert_eq!(a.values(), vec![1, 3, 2]);
    assert_eq!(a.comparisons(), 1);
    assert_eq!(a.writes(), 2);

    let (ok, a) = run_bubble_with(vec![Message::Step; 4]);
    assert!(!ok);
    assert_eq!(a.values(), vec![1, 2, 3]);
    assert_eq!(a.comparisons(), 2);
    assert_eq!(a.writes(), 4);

    let (ok, a) = run_bubble_with(vec![Message::Step; 5]);
    assert!(ok);
    assert_eq!(a.values(), vec![1, 2, 3]);
    assert_eq!(a.comparisons(), 3);
    assert_eq!(a.writes(), 4);
    assert_eq!(a.reads(), 10);
}

#[test]
fn a_tick_grants_its_full_budget() {
    let (ok, a) = run_bubble_with(vec![Message::Tick(3)]);
    assert!(!ok);
    assert_eq!(a.values(), vec![1, 3, 2]);
    assert_eq!(a.comparisons(), 2);
    assert_eq!(a.writes(), 2);

    let (ok, a) = run_bubble_with(vec![Message::Tick(5)]);
    assert!(ok);
    assert_eq!(a.values(), vec![1, 2, 3]);
}

#[test]
fn a_zero_tick_still_grants_one_operation() {
    let (ok, a) = run_bubble_with(vec![Message::Tick(0)]);
    assert!(!ok);
    assert_eq!(a.comparisons(), 1);
    assert_eq!(a.values(), vec![3, 1, 2]);
}

#[test]
fn queued_grants_are_spent_in_order() {
    let (ok, a) = run_bubble_with(vec![Message::Tick(2), Message::Step, Message::Tick(2)]);
    assert!(ok);
    assert_eq!(a.values(), vec![1, 2, 3]);
}

#[test]
fn kill_mid_run_leaves_a_valid_permutation() {
    let (ok, a) = run_bubble_with(vec![Message::Step, Message::Step, Message::Kill]);
    assert!(!ok);
    let mut vals = a.values();
    vals.sort();
    assert_eq!(vals, vec![1, 2, 3]);
}

#[test]
fn an_ungated_run_completes() {
    let mut lock = ArrayLock::ungated(three_one_two());
    let r = Sort::BubbleSort.sort(&mut lock, 3);
    assert!(r.is_ok());
    assert_eq!(lock.peek().values(), vec![1, 2, 3]);
    assert_eq!(lock.into_state().last_step().values(), vec![0, 1]);
}

#[test]
fn a_closed_channel_counts_as_kill() {
    let (sender, receiver) = std::sync::mpsc::channel();
    sender.send(Message::Step).unwrap();
    sender.send(Message::Step).unwrap();
    drop(sender);
    let (mut lock, shared) = ArrayLock::live(three_one_two(), receiver);
    let r = Sort::BubbleSort.sort(&mut lock, 3);
    assert!(r.is_err());
    assert_eq!(lock.into_state().values(), vec![1, 3, 2]);
    // The shared handle saw every intermediate state; it now holds the last.
    let snap = shared.snapshot();
    assert_eq!(snap.values(), vec![1, 3, 2]);
    assert_eq!(snap.comparisons(), 1);
    assert_eq!(snap.writes(), 2);
}

#[test]
fn a_live_run_can_finish_on_granted_budget() {
    let (sender, receiver) = std::sync::mpsc::channel();
    sender.send(Message::Tick(100)).unwrap();
    let (mut lock, shared) = ArrayLock::live(three_one_two(), receiver);
    let r = Sort::BubbleSort.sort(&mut lock, 3);
    assert!(r.is_ok());
    assert_eq!(shared.snapshot().values(), vec![1, 2, 3]);
    drop(sender);
}
