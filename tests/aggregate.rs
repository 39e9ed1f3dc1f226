use qr_benchmark::benchmark::{Measurement, Status};
use qr_benchmark::stats::{
    all_correct_durations, category_axis, correct_durations, density_buckets, latency_summary, library_axis,
    sort_samples, success_count, LatencySummary, SuccessCount, DENSITY_BUCKETS,
};

fn rec(lib: &str, cat: &str, dur: u128, status: Status) -> Measurement {
    Measurement {
        library: lib.to_string(),
        category: cat.to_string(),
        file_path: "p.png".to_string(),
        iteration: 1,
        duration_us: dur,
        status,
        expected_text: "x".to_string(),
        decoded_text: "x".to_string(),
    }
}

#[test]
fn median_and_p95_by_index() {
    assert_eq!(latency_summary(&vec![]), None);
    assert_eq!(latency_summary(&vec![5, 1, 3, 2, 4]), Some(LatencySummary { median: 3, p95: 5 }));
    let twenty: Vec<u128> = (1..=20).rev().collect();
    // floor(0.95 * 20) = 19: the largest sample.
    assert_eq!(latency_summary(&twenty), Some(LatencySummary { median: 11, p95: 20 }));
    let hundred: Vec<u128> = (0..100).collect();
    assert_eq!(latency_summary(&hundred), Some(LatencySummary { median: 50, p95: 95 }));
    assert_eq!(latency_summary(&vec![7]), Some(LatencySummary { median: 7, p95: 7 }));
}

#[test]
fn sorting_keeps_duplicates() {
    assert_eq!(sort_samples(&vec![3, 1, 3, 2, 1]), vec![1, 1, 2, 3, 3]);
}

#[test]
fn latency_comes_from_correct_records_only() {
    let base = vec![
        rec("a", "c1", 10, Status::Correct),
        rec("b", "c1", 99, Status::Correct),
        rec("a", "c2", 30, Status::Correct),
        rec("a", "c2", 20, Status::Correct),
    ];
    let before = latency_summary(&correct_durations(&base, "a"));
    let mut noisy = base.clone();
    noisy.insert(1, rec("a", "c1", 1_000_000_000, Status::Incorrect));
    noisy.insert(3, rec("a", "c2", 0, Status::Failed));
    noisy.push(rec("a", "c1", u128::MAX, Status::NoPoints));
    assert_eq!(correct_durations(&noisy, "a"), vec![10, 30, 20]);
    assert_eq!(latency_summary(&correct_durations(&noisy, "a")), before);
    assert_eq!(before, Some(LatencySummary { median: 20, p95: 30 }));
    assert_eq!(all_correct_durations(&noisy), vec![10, 99, 30, 20]);
}

#[test]
fn success_counts_per_decoder_and_category() {
    let records = vec![
        rec("a", "c1", 1, Status::Correct),
        rec("a", "c1", 1, Status::Incorrect),
        rec("a", "c2", 1, Status::Failed),
        rec("b", "c1", 1, Status::Correct),
    ];
    assert_eq!(success_count(&records, "a", "c1"), SuccessCount { correct: 1, total: 2 });
    assert_eq!(success_count(&records, "a", "c2"), SuccessCount { correct: 0, total: 1 });
    assert_eq!(success_count(&records, "b", "c2"), SuccessCount { correct: 0, total: 0 });
}

#[test]
fn axes_are_sorted_and_distinct() {
    let records = vec![
        rec("rxing", "nominal", 1, Status::Correct),
        rec("bardecoder", "blurred", 1, Status::Correct),
        rec("rqrr", "nominal", 1, Status::Failed),
        rec("rxing", "glare", 1, Status::Correct),
        rec("bardecoder", "nominal", 1, Status::Correct),
    ];
    assert_eq!(library_axis(&records), vec!["bardecoder", "rqrr", "rxing"]);
    assert_eq!(category_axis(&records), vec!["blurred", "glare", "nominal"]);
    assert!(library_axis(&vec![]).is_empty());
}

#[test]
fn density_buckets_clip_at_p98() {
    assert!(density_buckets(&vec![], &vec![1, 2]).is_none());
    let all: Vec<u128> = (1..=100).collect();
    // P98 is the sample at index 98, 99; buckets are ceil(99 / 50) = 2 wide.
    let d = density_buckets(&all, &vec![0, 1, 2, 3, 98, 99, 100]).unwrap();
    assert_eq!(d.clip, 99);
    assert_eq!(d.width, 2);
    assert_eq!(d.counts.len(), DENSITY_BUCKETS + 1);
    assert_eq!(d.counts[0], 2);
    assert_eq!(d.counts[1], 2);
    assert_eq!(d.counts[49], 2);
    assert_eq!(d.counts.iter().sum::<usize>(), 6);
    let zeros = density_buckets(&vec![0, 0], &vec![0, 0, 0]).unwrap();
    assert_eq!(zeros.width, 1);
    assert_eq!(zeros.counts[0], 3);
}
