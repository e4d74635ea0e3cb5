use lockstep_sim::{delay_of_sample, LatencyState, SimError};
use rand::rngs::StdRng;
use rand::SeedableRng;
use rand_distr::{Distribution, Normal};

#[test]
fn delays_are_handed_out_first_in_first_out() {
    let mut ls = LatencyState::new();
    assert_eq!(ls.available(), 0);
    assert_eq!(ls.gen_delay_of_msg(), None);
    ls.supply_sample(50);
    ls.supply_sample(7);
    ls.supply_sample(61);
    assert_eq!(ls.available(), 3);
    assert_eq!(ls.peek(0), Some(50));
    assert_eq!(ls.peek(2), Some(61));
    assert_eq!(ls.peek(3), None);
    assert_eq!(ls.gen_delay_of_msg(), Some(50));
    assert_eq!(ls.gen_delay_of_msg(), Some(7));
    ls.supply_sample(3);
    assert_eq!(ls.gen_delay_of_msg(), Some(61));
    assert_eq!(ls.gen_delay_of_msg(), Some(3));
    assert_eq!(ls.gen_delay_of_msg(), None);
    assert_eq!(ls.available(), 0);
}

#[test]
fn negative_samples_become_a_delay_of_zero() {
    let mut ls = LatencyState::new();
    ls.supply_sample(-1);
    ls.supply_sample(isize::MIN);
    ls.supply_sample(0);
    ls.supply_sample(1);
    ls.supply_sample(isize::MAX);
    assert_eq!(ls.gen_delay_of_msg(), Some(0));
    assert_eq!(ls.gen_delay_of_msg(), Some(0));
    assert_eq!(ls.gen_delay_of_msg(), Some(0));
    assert_eq!(ls.gen_delay_of_msg(), Some(1));
    assert_eq!(ls.gen_delay_of_msg(), Some(isize::MAX as usize));
}

#[test]
fn a_sample_stands_for_itself_or_for_zero() {
    assert_eq!(delay_of_sample(0), 0);
    assert_eq!(delay_of_sample(17), 17);
    assert_eq!(delay_of_sample(-17), 0);
    assert_eq!(delay_of_sample(isize::MIN), 0);
    assert_eq!(delay_of_sample(isize::MAX), isize::MAX as usize);
}

#[test]
fn every_error_says_what_went_wrong() {
    assert_eq!(
        SimError::ProtocolViolation.describe(),
        "A message arrived that its destination was not waiting for"
    );
    assert_eq!(SimError::Deadlock.describe(), "Every client is stalled and no event is pending");
    assert_eq!(
        SimError::EmptyQueue.describe(),
        "No event is pending although a client is not stalled"
    );
    assert_eq!(
        SimError::MissingLatencySample.describe(),
        "The latency model has no delay left for a message"
    );
    assert_eq!(
        SimError::Overflow.describe(),
        "A cycle number or a simulated time is too large to be counted"
    );
}

fn ten_thousand_delays(mean: usize, std_dev: usize, seed: u64) {
    let normal = Normal::new(mean as f32, std_dev as f32).unwrap();
    let mut rng = StdRng::seed_from_u64(seed);
    let mut ls = LatencyState::new();
    let mut negative = 0usize;
    for _ in 0..10_000 {
        let sample: f32 = normal.sample(&mut rng);
        let raw = sample as isize;
        if raw < 0 {
            negative += 1;
        }
        ls.supply_sample(raw);
        let delay = ls.gen_delay_of_msg().unwrap();
        assert_eq!(delay, if raw < 0 { 0 } else { raw as usize });
        assert_eq!(delay, sample as usize);
    }
    if std_dev == 0 {
        assert_eq!(negative, 0);
    }
}

#[test]
fn no_sampled_delay_is_negative() {
    ten_thousand_delays(50, 5, 1);
    ten_thousand_delays(0, 0, 2);
    ten_thousand_delays(0, 100, 3);
    ten_thousand_delays(5, 1000, 4);
    ten_thousand_delays(1000, 0, 5);
}

#[test]
fn a_wide_distribution_does_yield_negative_samples() {
    let normal = Normal::new(0.0f32, 100.0f32).unwrap();
    let mut rng = StdRng::seed_from_u64(7);
    let mut ls = LatencyState::new();
    let mut clamped = 0usize;
    for _ in 0..10_000 {
        let sample: f32 = normal.sample(&mut rng);
        ls.supply_sample(sample as isize);
        if sample <= -1.0 {
            clamped += 1;
            assert_eq!(ls.peek(0), Some(0));
        }
        ls.gen_delay_of_msg();
    }
    assert!(clamped > 1000);
}
