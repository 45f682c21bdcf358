use servertime::average::{average_nanos, decode, sample, AtomicAverage};
use std::time::Duration;

#[test]
fn sample_is_one_count_and_the_low_bits() {
    assert_eq!(sample(1500), (1 << 24) + 1500);
    assert_eq!(sample((1 << 24) + 5), (1 << 24) + 5);
    assert_eq!(sample(0), 1 << 24);
}

#[test]
fn decode_splits_count_and_sum() {
    assert_eq!(decode(0x0300_0010), (3, 16));
    assert_eq!(decode(0xffff_ffff), (255, 0x00ff_ffff));
    assert_eq!(decode(0), (0, 0));
}

#[test]
fn average_divides_by_the_count() {
    assert_eq!(average_nanos(3, 16), 5333);
    assert_eq!(average_nanos(0, 7), 7000);
    assert_eq!(average_nanos(4, 0x00ff_ffff), 0x00ff_ffff * 1000 / 4);
}

#[test]
fn a_fresh_average_is_zero() {
    let avg = AtomicAverage::new();
    assert_eq!(avg.load(), (0, 0));
    assert_eq!(avg.get_nanos(), 0);
    assert_eq!(avg.get(), Duration::ZERO);
}

#[test]
fn average_of_two_samples() {
    let avg = AtomicAverage::new();
    avg.add(Duration::from_micros(100));
    avg.add(Duration::from_micros(300));
    assert_eq!(avg.load(), (2, 400));
    assert_eq!(avg.get_nanos(), 200_000);
    assert_eq!(avg.get(), Duration::from_micros(200));
}

#[test]
fn samples_count_whole_microseconds() {
    let avg = AtomicAverage::new();
    avg.add(Duration::from_nanos(1_999));
    assert_eq!(avg.load(), (1, 1));
}

#[test]
fn a_long_sample_keeps_its_low_bits() {
    let avg = AtomicAverage::new();
    avg.add_micros((1 << 24) + 7);
    assert_eq!(avg.load(), (1, 7));
}

#[test]
fn an_overflowing_sum_carries_into_the_count() {
    let avg = AtomicAverage::new();
    avg.add_micros(0x00ff_ffff);
    avg.add_micros(2);
    assert_eq!(avg.load(), (3, 1));
}

#[test]
fn the_count_wraps_after_256_samples() {
    let avg = AtomicAverage::new();
    for _ in 0..256 {
        avg.add_micros(1);
    }
    assert_eq!(avg.load(), (0, 256));
    assert_eq!(avg.get_nanos(), 256_000);
}

#[test]
fn the_average_is_updated_through_shared_references() {
    let avg = AtomicAverage::new();
    let first = &avg;
    let second = &avg;
    first.add_micros(10);
    second.add_micros(30);
    assert_eq!(avg.load(), (2, 40));
}
