use sorting_animations::array::ArrayState;
use sorting_animations::gate::{ArrayLock, Message};
use sorting_animations::gui::DisplayMode;
use sorting_animations::sort::{Sort, MAX_SPEED};

fn run_to_completion(sort: Sort, state: ArrayState) -> ArrayState {
    let size = state.size();
    let mut lock = ArrayLock::ungated(state);
    let r = sort.sort(&mut lock, size);
    assert!(r.is_ok());
    lock.into_state()
}

fn sorted_run(n: usize) -> Vec<usize> {
    (1..=n).collect()
}

#[test]
fn every_strategy_sorts_a_reversed_run() {
    for sort in Sort::values() {
        let mut a = ArrayState::new(8, DisplayMode::Default);
        a.reverse();
        let out = run_to_completion(sort, a);
        assert_eq!(out.values(), sorted_run(8), "strategy {:?}", sort);
    }
}

#[test]
fn every_strategy_sorts_a_shuffled_run() {
    for sort in Sort::values() {
        let mut a = ArrayState::new(12, DisplayMode::Default);
        a.shuffle();
        let out = run_to_completion(sort, a);
        assert_eq!(out.values(), sorted_run(12), "strategy {:?}", sort);
    }
}

#[test]
fn every_strategy_keeps_a_sorted_run_sorted() {
    for sort in Sort::values() {
        let a = ArrayState::new(10, DisplayMode::Default);
        let out = run_to_completion(sort, a);
        assert_eq!(out.values(), sorted_run(10), "strategy {:?}", sort);
    }
}

#[test]
fn every_strategy_handles_a_single_element() {
    for sort in Sort::values() {
        let a = ArrayState::new(1, DisplayMode::Default);
        let out = run_to_completion(sort, a);
        assert_eq!(out.values(), vec![1], "strategy {:?}", sort);
    }
}

#[test]
fn every_strategy_handles_two_elements() {
    for sort in Sort::values() {
        let mut a = ArrayState::new(2, DisplayMode::Default);
        a.reverse();
        let out = run_to_completion(sort, a);
        assert_eq!(out.values(), vec![1, 2], "strategy {:?}", sort);
    }
}

#[test]
fn comparison_exchange_strategies_never_swap_on_sorted_input() {
    let swappers = vec![
        Sort::BubbleSort,
        Sort::ShakerSort,
        Sort::ExchangeSort,
        Sort::CombSort,
        Sort::OddEvenSort,
        Sort::SelectionSort,
        Sort::DoubleSelectionSort,
        Sort::StoogeSort,
        Sort::SlowSort,
    ];
    for sort in swappers {
        let a = ArrayState::new(10, DisplayMode::Default);
        let out = run_to_completion(sort, a);
        assert_eq!(out.writes(), 0, "strategy {:?}", sort);
        assert!(out.comparisons() > 0, "strategy {:?}", sort);
    }
}

#[test]
fn a_killed_swap_strategy_keeps_the_value_multiset() {
    for budget in 0..30u64 {
        let mut a = ArrayState::new(6, DisplayMode::Default);
        a.reverse();
        let mut lock = ArrayLock::with_script(a, vec![Message::Tick(budget)]);
        let _ = Sort::SelectionSort.sort(&mut lock, 6);
        let mut vals = lock.into_state().values();
        vals.sort();
        assert_eq!(vals, sorted_run(6), "budget {}", budget);
    }
}

#[test]
fn calculate_ticks_matches_the_growth_formulas() {
    assert_eq!(Sort::BubbleSort.calculate_ticks(100), 100);
    assert_eq!(Sort::InsertionSort.calculate_ticks(70), 49);
    assert_eq!(Sort::StoogeSort.calculate_ticks(100), 1000);
    assert_eq!(Sort::SlowSort.calculate_ticks(50), 125);
    assert_eq!(Sort::QuickSort.calculate_ticks(64), 3);
    assert_eq!(Sort::MergeSort.calculate_ticks(1024), 102);
    assert_eq!(Sort::HeapSort.calculate_ticks(1), 0);
    assert_eq!(Sort::CountingSort.calculate_ticks(500), 10);
    assert_eq!(Sort::RadixSort10.calculate_ticks(49), 0);
    assert_eq!(Sort::CombSort.calculate_ticks(1000), 100);
    assert_eq!(Sort::ShellSort.calculate_ticks(200), 4);
    assert_eq!(Sort::StrandSort.calculate_ticks(100), 10);
}

#[test]
fn tick_budget_is_speed_scaled_and_clamped() {
    // Too small an estimate still grants one operation.
    assert_eq!(Sort::HeapSort.tick_message(1, 2), Message::Tick(1));
    // Full speed grants the whole estimate, half speed half of it.
    assert_eq!(Sort::BubbleSort.tick_message(MAX_SPEED, 100), Message::Tick(100));
    assert_eq!(Sort::BubbleSort.tick_message(250, 100), Message::Tick(50));
    // A huge estimate is capped so a kill is still seen promptly.
    assert_eq!(Sort::StoogeSort.tick_message(MAX_SPEED, 1_000_000), Message::Tick(1_000_000));
}

#[test]
fn sort_values_lists_every_strategy_once() {
    let all = Sort::values();
    assert_eq!(all.len(), 19);
    assert_eq!(all[0], Sort::BubbleSort);
    assert_eq!(all[18], Sort::RadixSort2);
    for (i, a) in all.iter().enumerate() {
        for (j, b) in all.iter().enumerate() {
            if i != j {
                assert_ne!(a, b);
            }
        }
    }
}

#[test]
fn default_strategy_is_bubble_sort() {
    assert_eq!(Sort::default(), Sort::BubbleSort);
}

#[test]
fn counters_accumulate_over_a_full_run() {
    let mut a = ArrayState::new(5, DisplayMode::Default);
    a.reverse();
    let out = run_to_completion(Sort::BubbleSort, a);
    // Four passes over a reversed run of five: 4+3+2+1 comparisons, and
    // on reversed input every one of them swaps.
    assert_eq!(out.comparisons(), 10);
    assert_eq!(out.writes(), 20);
    assert_eq!(out.reads(), 40);
}

#[test]
fn radix_handles_repeated_values() {
    for sort in vec![Sort::RadixSort10, Sort::RadixSort2, Sort::CountingSort] {
        let mut a = ArrayState::new(6, DisplayMode::Default);
        a.set(0, 3);
        a.set(1, 1);
        a.set(2, 3);
        a.set(3, 2);
        a.set(4, 1);
        a.set(5, 6);
        let out = run_to_completion(sort, a);
        assert_eq!(out.values(), vec![1, 1, 2, 3, 3, 6], "strategy {:?}", sort);
    }
}
