use cloud_quiz::session::Snapshot;
use cloud_quiz::stats::summarize_times;
use cloud_quiz::text::{accuracy_text, bar_split, center_offset, completion_text, decimal_text, percent, rounded_div, time_texts};

fn snap(correct: u64, total: u64, pool: usize) -> Snapshot {
    Snapshot { completed: 0, total_in_pool: pool, correct_count: correct, total_answered: total, time_samples: Vec::new() }
}

#[test]
fn median_even_and_odd() {
    let even = summarize_times(&vec![1000, 2000, 3000, 4000]).unwrap();
    assert_eq!(even.median_doubled_ms, 5000);
    assert_eq!(time_texts(&even).1, "2.50");
    let odd = summarize_times(&vec![1000, 2000, 3000]).unwrap();
    assert_eq!(odd.median_doubled_ms, 4000);
    assert_eq!(time_texts(&odd).1, "2.00");
}

#[test]
fn median_of_unsorted_samples() {
    let t = summarize_times(&vec![4000, 1000, 3000, 2000, 9000]).unwrap();
    assert_eq!(t.median_doubled_ms, 6000);
    assert_eq!(t.min_ms, 1000);
    assert_eq!(t.max_ms, 9000);
    assert_eq!(t.total_ms, 19000);
    assert_eq!(t.count, 5);
}

#[test]
fn no_samples_no_figures() {
    assert!(summarize_times(&Vec::new()).is_none());
}

#[test]
fn time_figures_as_seconds() {
    let t = summarize_times(&vec![2000, 3000, 1234]).unwrap();
    let (lo, mid, mean, hi) = time_texts(&t);
    assert_eq!(lo, "1.23");
    assert_eq!(mid, "2.00");
    assert_eq!(mean, "2.08");
    assert_eq!(hi, "3.00");
    let single = summarize_times(&vec![5]).unwrap();
    assert_eq!(time_texts(&single).0, "0.01");
}

#[test]
fn accuracy_before_any_answer() {
    assert_eq!(accuracy_text(&snap(0, 0, 10)), "0/0 (0%)");
}

#[test]
fn accuracy_and_completion_labels() {
    assert_eq!(completion_text(&snap(1, 2, 3)), "2/3 (67%)");
    assert_eq!(accuracy_text(&snap(1, 2, 3)), "1/2 (50%)");
    assert_eq!(completion_text(&snap(0, 0, 0)), "0/0 (0%)");
    assert_eq!(accuracy_text(&snap(2, 3, 5)), "2/3 (67%)");
    assert_eq!(completion_text(&snap(0, 1, 8)), "1/8 (13%)");
}

#[test]
fn rounding_rules() {
    assert_eq!(rounded_div(5, 2), 3);
    assert_eq!(rounded_div(4, 3), 1);
    assert_eq!(rounded_div(5, 3), 2);
    assert_eq!(percent(1, 3), 33);
    assert_eq!(percent(2, 3), 67);
    assert_eq!(percent(5, 0), 0);
    assert_eq!(decimal_text(0), "0");
    assert_eq!(decimal_text(1200), "1200");
}

#[test]
fn bar_widths() {
    // 80 columns, labels of 9 and 8: 60 cells, two thirds filled.
    assert_eq!(bar_split(80, 9, 8, 2, 3), (40, 20));
    assert_eq!(bar_split(80, 9, 8, 0, 0), (0, 60));
    assert_eq!(bar_split(15, 9, 8, 1, 2), (0, 0));
    assert_eq!(bar_split(80, 9, 8, 5, 3), (60, 0));
    assert_eq!(bar_split(31, 10, 4, 1, 2), (5, 5));
}

#[test]
fn centring() {
    assert_eq!(center_offset(10, 80), 35);
    assert_eq!(center_offset(11, 80), 34);
    assert_eq!(center_offset(90, 80), 0);
}
