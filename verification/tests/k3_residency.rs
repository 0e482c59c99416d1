//! Pin budgets and the histogram of routed experts.
use cascadia_engine_sparse_moe::k3::residency::{
    autopin_budget, autopin_count, load_global, mem_available, page_range, pin_budget_experts,
    record_selection, save_global, snapshot, usage_path, UsageStats, AUTOPIN_MIN_SELECTIONS,
    RAM_FRACTION,
};

#[test]
fn budget_divides_and_reserves() {
    // 100 GB budget, 12 GB reserved, 17.5 MB experts
    assert_eq!(
        pin_budget_experts(100_000_000_000, 12_000_000_000, 17_547_264),
        4124
    );
    // a reserve larger than the budget pins nothing rather than underflowing
    assert_eq!(pin_budget_experts(1_000, 2_000, 10), 0);
    assert_eq!(pin_budget_experts(1_000, 0, 0), 0);
}

#[test]
fn hottest_is_ordered_and_tie_broken_by_id() {
    let mut u = UsageStats::new();
    for _ in 0..5 {
        u.record(1, 7);
    }
    for _ in 0..5 {
        u.record(1, 3); // ties with expert 7 -> lower id wins
    }
    u.record(1, 9);
    u.record(2, 0); // a different layer must not leak in
    assert_eq!(u.hottest_for(1, 3), vec![3, 7, 9]);
    assert_eq!(u.hottest_for(1, 1), vec![3]);
    assert_eq!(u.total(), 12);
    assert_eq!(u.hottest_for(5, 3), Vec::<u32>::new());
}

#[test]
fn usage_roundtrips_through_a_file() {
    let mut u = UsageStats::new();
    u.record(0, 1);
    u.record(0, 1);
    u.record(3, 2);
    let saved = u.save();
    let mut back = UsageStats::new();
    assert!(back.load(&saved));
    assert_eq!(back.hottest_for(0, 2), vec![1]);
    assert_eq!(back.total(), u.total());
    assert_eq!(saved, "0 1 2\n3 2 1\n");
}

#[test]
fn usage_save_is_atomic_and_round_trips() {
    let mut u = UsageStats::new();
    u.record(3, 7);
    u.record(3, 7);
    u.record(1, 2);
    let mut back = UsageStats::new();
    assert!(back.load(&u.save()));
    assert_eq!(back.total(), u.total());
    // loading once more adds the counts
    assert!(back.load(&u.save()));
    assert_eq!(back.total(), 2 * u.total());
}

#[test]
fn a_malformed_line_is_passed_over() {
    let mut u = UsageStats::new();
    assert!(u.is_empty());
    assert!(u.load("1 2 3\r\n\n1 2\nx 2 3\n1 2 -3\n 4294967296 0 1\n 1\t2  4 trailing words"));
    assert_eq!(u.total(), 7);
    assert_eq!(u.hottest_for(1, 8), vec![2]);
    assert!(!u.is_empty());
}

#[test]
fn a_count_that_would_not_fit_changes_nothing() {
    let mut u = UsageStats::new();
    assert!(u.load("0 0 18446744073709551615\n"));
    assert!(!u.load("9 9 1\n0 0 1\n"));
    assert_eq!(u.total(), u64::MAX);
    assert_eq!(u.hottest_for(9, 1), Vec::<u32>::new());
}

#[test]
fn the_running_histogram_is_recorded_saved_and_loaded() {
    let mut u = UsageStats::new();
    record_selection(&mut u, 4, &[1, 2, 1]);
    let copy = snapshot(&u);
    assert_eq!(copy.hottest_for(4, 2), vec![1, 2]);
    record_selection(&mut u, 4, &[2, 2, 2]);
    assert_eq!(u.hottest_for(4, 2), vec![2, 1]);
    assert_eq!(copy.total(), 3);
    let text = save_global(&u);
    let mut next = UsageStats::new();
    assert!(load_global(&mut next, &text));
    assert_eq!(next.hottest_for(4, 2), vec![2, 1]);
    assert_eq!(usage_path("/models/k3"), "/models/k3/.k3_usage");
    assert_eq!(usage_path("/models/k3/"), "/models/k3/.k3_usage");
    assert_eq!(usage_path(""), ".k3_usage");
}

#[test]
fn autopin_is_off_unless_asked() {
    assert_eq!(autopin_budget(None, None, 1 << 40, 17_547_264, 0), 0);
    assert_eq!(autopin_budget(Some("0"), None, 1 << 40, 17_547_264, 0), 0);
    assert_eq!(autopin_budget(Some(""), None, 1 << 40, 17_547_264, 0), 0);
}

#[test]
fn an_asked_for_pin_budget_takes_the_given_bytes_or_free_memory() {
    let eb = 17_547_264;
    let given = pin_budget_experts(100_000_000_000, 5, eb);
    assert_eq!(
        autopin_budget(Some("1"), Some(" 100000000000\n"), 0, eb, 5),
        given
    );
    assert_eq!(
        autopin_budget(Some("1"), Some("much"), 100_000_000_000, eb, 5),
        given
    );
    assert_eq!(
        autopin_budget(Some("1"), None, 100_000_000_000, eb, 5),
        given
    );
}

#[test]
fn mem_available_never_reports_zero() {
    assert!(
        mem_available(None) > 0,
        "mem_available must never be 0 — that silently disables pinning"
    );
    assert_eq!(mem_available(None), 8_000_000_000);
    assert_eq!(mem_available(Some("")), 8_000_000_000);
    assert_eq!(mem_available(Some("MemAvailable: none kB\n")), 8_000_000_000);
    assert_eq!(mem_available(Some("MemAvailable: 0 kB\n")), 8_000_000_000);
    let table = "MemTotal:       65748104 kB\nMemAvailable:   50000000 kB\nMemAvailable: 1 kB\n";
    assert_eq!(mem_available(Some(table)), 50_000_000 * 1024);
}

#[test]
fn budget_leaves_the_page_cache_alone() {
    let eb = 17_547_264u64;
    // A budget that only just covers the reserve must not pin anything: the
    // page-cache reserve and working-set block come out first.
    assert_eq!(pin_budget_experts(10_000_000_000, 9_000_000_000, eb), 0);
    // A large budget still holds back the reserve rather than spending all.
    let big = pin_budget_experts(200_000_000_000, 10_000_000_000, eb);
    let naive = (200_000_000_000u64 - 10_000_000_000) / eb;
    assert!(
        big > 0 && (big as u64) < naive,
        "got {big}, naive would be {naive}"
    );
}

#[test]
fn autopin_ramps_with_confidence() {
    // Below the floor: nothing, however large the budget.
    assert_eq!(autopin_count(0, 1000), 0);
    assert_eq!(autopin_count(AUTOPIN_MIN_SELECTIONS - 1, 1000), 0);
    // At the floor it engages, but only a sliver.
    let low = autopin_count(AUTOPIN_MIN_SELECTIONS, 1000);
    assert!(low > 0 && low < 50, "expected a small ramp, got {low}");
    // Fully confident caps at half the budget, never the whole thing.
    let full = autopin_count(1_000_000, 1000);
    assert_eq!(full, 500);
}

#[test]
fn integer_scaling_agrees_with_double_precision() {
    assert_eq!(RAM_FRACTION as f64 / 9007199254740992.0, 0.88);
    for total in [5_000u64, 5_001, 7_777, 66_667, 99_999, 123_456, 199_999, 200_000] {
        for budget in [1usize, 7, 1000, 4124, 999_983, (1 << 53) + 1] {
            let conf = (total as f64 / 200_000.0).min(1.0);
            assert_eq!(
                autopin_count(total, budget),
                (budget as f64 * 0.5 * conf) as usize
            );
        }
    }
    for budget in [0u64, 1, 99, 100_000_000_000, 123_456_789_012_345, u64::MAX] {
        let usable = (budget as f64 * 0.88) as u64;
        let want = usable.saturating_sub(2_500_000_000 + 64 * 3) / 3;
        assert_eq!(pin_budget_experts(budget, 0, 3) as u64, want);
    }
}

#[test]
fn a_range_is_rounded_out_to_whole_pages() {
    assert_eq!(page_range(8192, 4096, 4096), (8192, 4096));
    assert_eq!(page_range(8193, 4096, 4096), (8192, 8192));
    assert_eq!(page_range(100, 0, 4096), (0, 4096));
    assert_eq!(page_range(0, 0, 4096), (0, 0));
}

#[test]
fn a_selection_counts_each_pick_and_nothing_else() {
    let mut u = UsageStats::new();
    // a full count elsewhere does not stand in the way
    assert!(u.load("9 9 18446744073709551000\n"));
    let before = snapshot(&u);
    record_selection(&mut u, 4, &[1, 2, 1]);
    record_selection(&mut u, 5, &[1]);
    assert_eq!(save_global(&u), "9 9 18446744073709551000\n4 1 2\n4 2 1\n5 1 1\n");
    assert_eq!(save_global(&before), "9 9 18446744073709551000\n");
    assert_eq!(u.total(), before.total() + 4);
}

#[test]
fn more_selections_never_pin_less() {
    for budget in [0usize, 1, 999, 1000, 4124] {
        let mut last = 0;
        for total in (0..=210_000u64).step_by(371) {
            let n = autopin_count(total, budget);
            assert!(n >= last && 2 * n <= budget);
            last = n;
        }
        assert_eq!(last, budget / 2);
    }
    assert_eq!(autopin_count(100_000, 1000), 250);
}
