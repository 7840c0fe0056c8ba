use primal::Primes;
use prime_gaps::consumer::{is_seed_pair, Consumer, ObserveError, RunOutcome, SEED_PRIME};
use prime_gaps::histogram::GapError;

#[test]
fn new_consumer_starts_at_the_seed() {
    let consumer = Consumer::new(10);
    assert_eq!(SEED_PRIME, 3);
    assert_eq!(consumer.previous_prime(), 3);
    assert_eq!(consumer.index(), 0);
    assert_eq!(consumer.step(), 10);
    assert_eq!(consumer.histogram().len(), 0);
}

#[test]
fn first_nine_primes_end_to_end() {
    let stream = [2u64, 3, 5, 7, 11, 13, 17, 19, 23];
    let mut consumer = Consumer::new(1_000_000_000);
    for prime in stream.iter().skip(2) {
        assert_eq!(consumer.observe(*prime), Ok(false));
    }
    assert_eq!(consumer.index(), 7);
    assert_eq!(consumer.previous_prime(), 23);
    assert_eq!(consumer.histogram().counts(), &vec![4, 3]);
    assert_eq!(consumer.histogram().counts().iter().sum::<u64>(), consumer.index());
}

#[test]
fn counters_add_up_to_the_index_at_every_step() {
    let mut consumer = Consumer::new(4);
    for prime in [5u64, 7, 11, 13, 17, 19, 23, 29, 31, 37, 41, 43, 47] {
        consumer.observe(prime).unwrap();
        assert_eq!(consumer.histogram().counts().iter().sum::<u64>(), consumer.index());
    }
    assert_eq!(consumer.index(), 13);
}

#[test]
fn report_is_due_at_every_multiple_of_the_step() {
    let mut consumer = Consumer::new(3);
    let mut due_at: Vec<u64> = Vec::new();
    for prime in [5u64, 7, 11, 13, 17, 19, 23, 29, 31, 37] {
        if consumer.observe(prime).unwrap() {
            due_at.push(consumer.index());
        }
    }
    assert_eq!(due_at, vec![3, 6, 9]);
}

#[test]
fn step_of_one_reports_every_prime() {
    let mut consumer = Consumer::new(1);
    assert_eq!(consumer.observe(5), Ok(true));
    assert_eq!(consumer.observe(7), Ok(true));
    assert_eq!(consumer.observe(11), Ok(true));
}

#[test]
fn value_not_above_the_previous_prime_is_refused() {
    let mut consumer = Consumer::new(5);
    consumer.observe(5).unwrap();
    assert_eq!(consumer.observe(5), Err(ObserveError::NotIncreasing));
    assert_eq!(consumer.observe(3), Err(ObserveError::NotIncreasing));
    assert_eq!(consumer.index(), 1);
    assert_eq!(consumer.previous_prime(), 5);
    assert_eq!(consumer.histogram().counts(), &vec![1]);
}

#[test]
fn odd_gap_is_refused_and_changes_nothing() {
    let mut consumer = Consumer::new(5);
    assert_eq!(consumer.observe(4), Err(ObserveError::Gap(GapError::Odd)));
    assert_eq!(consumer.index(), 0);
    assert_eq!(consumer.previous_prime(), 3);
    assert_eq!(consumer.histogram().len(), 0);
}

#[test]
fn seed_pair_is_two_then_three() {
    assert!(is_seed_pair(Some(2), Some(3)));
    assert!(!is_seed_pair(Some(3), Some(2)));
    assert!(!is_seed_pair(Some(2), Some(5)));
    assert!(!is_seed_pair(Some(2), None));
    assert!(!is_seed_pair(None, Some(3)));
    assert!(!is_seed_pair(None, None));
}

#[test]
fn from_seeds_gives_a_fresh_consumer_for_two_and_three() {
    let consumer = Consumer::from_seeds(10, Some(2), Some(3)).unwrap();
    assert_eq!(consumer.index(), 0);
    assert_eq!(consumer.previous_prime(), 3);
    assert_eq!(consumer.step(), 10);
    assert_eq!(consumer.histogram().len(), 0);
}

#[test]
fn from_seeds_gives_none_for_other_values() {
    assert!(Consumer::from_seeds(10, Some(3), Some(2)).is_none());
    assert!(Consumer::from_seeds(10, Some(3), Some(5)).is_none());
    assert!(Consumer::from_seeds(10, Some(2), None).is_none());
    assert!(Consumer::from_seeds(10, None, Some(3)).is_none());
    assert!(Consumer::from_seeds(10, None, None).is_none());
}

#[test]
fn start_takes_the_seed_pair_off_the_stream() {
    let mut primes = Primes::all();
    let consumer = Consumer::start(10, &mut primes).unwrap();
    assert_eq!(consumer.index(), 0);
    assert_eq!(consumer.previous_prime(), 3);
    assert_eq!(consumer.step(), 10);
    assert_eq!(consumer.histogram().len(), 0);
    assert_eq!(primes.next(), Some(5));
}

#[test]
fn start_on_a_stream_past_its_beginning_is_none() {
    let mut primes = Primes::all();
    primes.next();
    assert!(Consumer::start(10, &mut primes).is_none());
    assert_eq!(primes.next(), Some(7));
}

#[test]
fn run_stops_at_the_first_milestone() {
    let mut primes = Primes::all();
    let mut consumer = Consumer::start(7, &mut primes).unwrap();
    assert_eq!(
        consumer.run_to_report(&mut primes),
        RunOutcome::Report { index: 7, prime: 23 }
    );
    assert_eq!(consumer.index(), 7);
    assert_eq!(consumer.previous_prime(), 23);
    assert_eq!(consumer.histogram().counts(), &vec![4, 3]);
    assert_eq!(primes.next(), Some(29));
}

#[test]
fn run_reports_each_milestone_once_and_in_order() {
    let mut primes = Primes::all();
    let mut consumer = Consumer::start(3, &mut primes).unwrap();
    assert_eq!(
        consumer.run_to_report(&mut primes),
        RunOutcome::Report { index: 3, prime: 11 }
    );
    assert_eq!(
        consumer.run_to_report(&mut primes),
        RunOutcome::Report { index: 6, prime: 19 }
    );
    assert_eq!(consumer.histogram().counts(), &vec![4, 2]);
    assert_eq!(
        consumer.run_to_report(&mut primes),
        RunOutcome::Report { index: 9, prime: 31 }
    );
    assert_eq!(consumer.histogram().counts(), &vec![5, 3, 1]);
}

#[test]
fn run_over_a_thousand_primes_keeps_the_sum() {
    let mut primes = Primes::all();
    let mut consumer = Consumer::start(1000, &mut primes).unwrap();
    assert_eq!(
        consumer.run_to_report(&mut primes),
        RunOutcome::Report { index: 1000, prime: 7933 }
    );
    assert_eq!(consumer.histogram().counts().iter().sum::<u64>(), 1000);
}

#[test]
fn run_on_a_stream_with_its_seeds_is_rejected() {
    let mut primes = Primes::all();
    let mut consumer = Consumer::new(3);
    assert_eq!(
        consumer.run_to_report(&mut primes),
        RunOutcome::Rejected { prime: 2, error: ObserveError::NotIncreasing }
    );
    assert_eq!(consumer.index(), 0);
    assert_eq!(consumer.histogram().len(), 0);
    assert_eq!(primes.next(), Some(3));
}

#[test]
fn run_takes_the_first_values_of_the_stream_in_turn() {
    let mut primes = Primes::all();
    let mut by_run = Consumer::start(5, &mut primes).unwrap();
    assert_eq!(
        by_run.run_to_report(&mut primes),
        RunOutcome::Report { index: 5, prime: 17 }
    );
    let mut by_hand = Consumer::new(5);
    for prime in [5u64, 7, 11, 13, 17] {
        by_hand.observe(prime).unwrap();
    }
    assert_eq!(by_run.index(), by_hand.index());
    assert_eq!(by_run.previous_prime(), by_hand.previous_prime());
    assert_eq!(by_run.histogram().counts(), by_hand.histogram().counts());
    assert_eq!(primes.next(), Some(19));
}
