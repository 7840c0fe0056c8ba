use prime_gaps::histogram::{GapCount, GapError, GapHistogram};

fn tally(gaps: &[u64]) -> GapHistogram {
    let mut histogram = GapHistogram::new();
    for gap in gaps {
        histogram.record(*gap).unwrap();
    }
    histogram
}

#[test]
fn new_histogram_is_empty() {
    let histogram = GapHistogram::new();
    assert_eq!(histogram.len(), 0);
    assert_eq!(histogram.counts(), &Vec::<u64>::new());
    assert_eq!(histogram.observed(), vec![]);
}

#[test]
fn first_gap_of_two_fills_slot_zero() {
    let histogram = tally(&[2]);
    assert_eq!(histogram.counts(), &vec![1]);
}

#[test]
fn six_alternating_gaps_give_three_and_three() {
    let histogram = tally(&[2, 4, 2, 4, 2, 4]);
    assert_eq!(histogram.counts(), &vec![3, 3]);
    assert_eq!(histogram.counts().iter().sum::<u64>(), 6);
}

#[test]
fn larger_gap_grows_with_zero_slots() {
    let histogram = tally(&[6]);
    assert_eq!(histogram.counts(), &vec![0, 0, 1]);
    assert_eq!(histogram.len(), 3);
}

#[test]
fn smaller_gap_keeps_the_length() {
    let histogram = tally(&[8, 2, 4]);
    assert_eq!(histogram.counts(), &vec![1, 1, 0, 1]);
}

#[test]
fn length_is_half_the_largest_gap() {
    let histogram = tally(&[2, 14, 6, 10]);
    assert_eq!(histogram.len(), 7);
    assert_eq!(*histogram.counts().last().unwrap(), 1);
}

#[test]
fn counters_never_go_down() {
    let mut histogram = GapHistogram::new();
    let mut before: Vec<u64> = Vec::new();
    for gap in [2u64, 6, 4, 2, 12, 6, 2, 4] {
        histogram.record(gap).unwrap();
        let after = histogram.counts().clone();
        assert!(after.len() >= before.len());
        for (slot, count) in before.iter().enumerate() {
            assert!(after[slot] >= *count);
        }
        assert_eq!(after.iter().sum::<u64>(), before.iter().sum::<u64>() + 1);
        before = after;
    }
}

#[test]
fn zero_gap_is_refused() {
    let mut histogram = tally(&[2, 4]);
    assert_eq!(histogram.record(0), Err(GapError::Zero));
    assert_eq!(histogram.counts(), &vec![1, 1]);
}

#[test]
fn odd_gap_is_refused() {
    let mut histogram = tally(&[2, 4]);
    assert_eq!(histogram.record(1), Err(GapError::Odd));
    assert_eq!(histogram.record(7), Err(GapError::Odd));
    assert_eq!(histogram.counts(), &vec![1, 1]);
}

#[test]
fn observed_skips_empty_slots() {
    let histogram = tally(&[2, 6]);
    assert_eq!(
        histogram.observed(),
        vec![GapCount { gap: 2, count: 1 }, GapCount { gap: 6, count: 1 }]
    );
}

#[test]
fn observed_lists_gap_sizes_with_counts() {
    let histogram = tally(&[2, 2, 2, 4]);
    assert_eq!(histogram.counts(), &vec![3, 1]);
    assert_eq!(
        histogram.observed(),
        vec![GapCount { gap: 2, count: 3 }, GapCount { gap: 4, count: 1 }]
    );
}

#[test]
fn observed_is_the_same_when_asked_twice() {
    let histogram = tally(&[4, 2, 10, 4]);
    assert_eq!(histogram.observed(), histogram.observed());
}
