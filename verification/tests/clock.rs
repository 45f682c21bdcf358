use servertime::range::Range;
use servertime::{
    add, get_diff, get_diff_panics, lateness_micros, time_diff_panics, plan_sleep, sleep_duration, time_diff, Client, PingResult,
    SleepPlan, MAX_RUNS,
};

#[test]
fn add_sums() {
    assert_eq!(add(2, 2), 4);
    assert_eq!(add(u64::MAX - 1, 1), u64::MAX);
}

#[test]
fn time_diff_counts_whole_milliseconds() {
    assert_eq!(time_diff(10_000_000_000, 9_000_500_000), 999);
    assert_eq!(time_diff(9_000_500_000, 10_000_000_000), -999);
    assert_eq!(time_diff(5, 5), 0);
    assert_eq!(time_diff(999_999, 0), 0);
    assert_eq!(time_diff(0, 999_999), 0);
}

#[test]
fn time_diff_cuts_to_16_bits() {
    assert_eq!(time_diff(40_000_000_000, 0), -25536);
    assert_eq!(time_diff(0, 40_000_000_000), 25536);
}

#[test]
fn get_diff_spans_one_second() {
    assert_eq!(get_diff(10_000_000_000, 9_000_500_000), Range { min: 999, max: 1999 });
    assert_eq!(get_diff(0, 2_000_000_000), Range { min: -2000, max: -1000 });
}

#[test]
fn sleep_duration_halves_each_run() {
    assert_eq!(sleep_duration(true, 0), 500_000_000);
    assert_eq!(sleep_duration(false, 0), 500_000_000);
    assert_eq!(sleep_duration(true, 1), 250_000_000);
    assert_eq!(sleep_duration(false, 1), 750_000_000);
    assert_eq!(sleep_duration(true, 2), 125_000_000);
    assert_eq!(sleep_duration(true, 9), 976_562);
    assert_eq!(sleep_duration(false, 9), 999_023_438);
    assert_eq!(sleep_duration(true, MAX_RUNS - 1), 0);
    assert_eq!(sleep_duration(false, MAX_RUNS - 1), 1_000_000_000);
}

#[test]
fn plan_sleep_aims_ahead() {
    assert_eq!(
        plan_sleep(1000, 500, 100, 1200),
        SleepPlan { until: 1400, sleep: 200, adjusted: false }
    );
    assert_eq!(
        plan_sleep(1000, 500, 100, 1400),
        SleepPlan { until: 1400, sleep: 0, adjusted: false }
    );
}

#[test]
fn plan_sleep_moves_a_passed_aim_one_second_later() {
    assert_eq!(
        plan_sleep(0, 500, 100, 1000),
        SleepPlan { until: 1_000_000_400, sleep: 999_999_400, adjusted: true }
    );
    assert_eq!(
        plan_sleep(0, 0, 0, 3_000_000_000),
        SleepPlan { until: 1_000_000_000, sleep: 0, adjusted: true }
    );
}

#[test]
fn lateness_counts_whole_microseconds_late() {
    assert_eq!(lateness_micros(1000, 5_500), 4);
    assert_eq!(lateness_micros(5_500, 1000), 0);
    assert_eq!(lateness_micros(0, 0), 0);
}

#[test]
fn a_new_client_allows_every_offset() {
    let c = Client::new();
    assert_eq!(c.range(), Range { min: i16::MIN, max: i16::MAX });
    assert_eq!(c.iteration(), 0);
}

#[test]
fn runs_narrow_the_window() {
    let mut c = Client::new();
    let first = PingResult { server_time: 10_000_000_000, machine_time: 9_000_500_000, initiated_at: 0 };
    assert_eq!(c.begin_run(&first), 500_000_000);
    assert_eq!(c.range(), Range { min: 999, max: 1999 });
    assert_eq!(c.end_run(first.server_time, false), Range { min: 999, max: 1999 });
    assert_eq!(c.iteration(), 1);

    let second = PingResult { server_time: 11_000_000_000, machine_time: 10_200_000_000, initiated_at: 0 };
    assert_eq!(c.begin_run(&second), 750_000_000);
    assert_eq!(c.range(), Range { min: 999, max: 1800 });
    c.end_run(second.server_time, true);
    assert_eq!(c.iteration(), 2);

    // The next answer repeats the expected date: the short step follows.
    let third = PingResult { server_time: 12_000_000_000, machine_time: 10_900_000_000, initiated_at: 0 };
    assert_eq!(c.begin_run(&third), 125_000_000);
    assert_eq!(c.range(), Range { min: 1100, max: 1800 });
}

#[test]
fn an_offset_every_answer_allows_stays_allowed() {
    let answers = [
        (10_000_000_000i128, 9_000_500_000i128),
        (11_000_000_000, 10_200_000_000),
        (12_000_000_000, 10_900_000_000),
    ];
    let mut c = Client::new();
    for (server, machine) in answers {
        let p = PingResult { server_time: server, machine_time: machine, initiated_at: 0 };
        c.begin_run(&p);
        c.end_run(server, false);
        assert!(c.range().min <= 1500 && 1500 <= c.range().max);
    }
}

#[test]
fn diff_panics_only_where_the_arithmetic_overflows() {
    assert!(!time_diff_panics(0, 40_000_000_000));
    // 32768 ms cut to 16 bits is i16::MIN, whose negation overflows.
    assert!(time_diff_panics(0, 32_768_000_000));
    assert!(time_diff_panics(i128::MIN, 1));
    assert!(time_diff_panics(i128::MAX, -1));
    assert!(!get_diff_panics(10_000_000_000, 9_000_500_000));
    assert!(get_diff_panics(31_768_000_000, 0));
    assert!(!get_diff_panics(31_767_000_000, 0));
}

#[test]
fn a_run_needs_room_in_the_step_exponent() {
    let mut c = Client::new();
    let p = PingResult { server_time: 10_000_000_000, machine_time: 9_000_500_000, initiated_at: 0 };
    assert!(!c.run_panics(&p));
    for _ in 0..MAX_RUNS {
        c.begin_run(&p);
        c.end_run(p.server_time, false);
    }
    assert_eq!(c.iteration(), MAX_RUNS);
    assert!(c.run_panics(&p));
}
