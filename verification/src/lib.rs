//! Estimates the offset between this machine's clock and a web server's clock
//! from the `Date` header of repeated HTTPS requests.
//!
//! The server's date has a precision of one second, so one answer only says
//! that the offset lies in a window of one second. Each run narrows the
//! window: the next request is timed so that the server's second ticks over
//! close to a chosen point, half of the remaining uncertainty further each
//! time.

use vstd::arithmetic::div_mod::lemma_div_denominator;
use vstd::arithmetic::power2::{lemma2_to64, lemma_pow2_pos, lemma_pow2_unfold, pow2};
use vstd::bits::lemma_u32_shl_is_mul;
use vstd::bits::lemma_u32_pow2_no_overflow;
use vstd::prelude::*;

pub mod average;
pub mod http;
pub mod range;

pub use crate::average::AtomicAverage;
pub use crate::http::client::PingResult;
pub use crate::range::Range;
use crate::range::lemma_intersect_contains;

verus! {

/// One second in nanoseconds.
pub const SECOND_NANOS: u64 = 1_000_000_000;

/// A run needs `iteration + 1 < 32`, so that `2^(iteration + 1)` fits in a
/// `u32`: at most this many runs can be made.
pub const MAX_RUNS: u32 = 31;

/// Adds two counters; the sum must fit in a `u64`.
pub fn add(left: u64, right: u64) -> (sum: u64)
    requires
        left + right <= u64::MAX,
    ensures
        sum == left + right,
{
    left + right
}

/// Whole milliseconds in `nanos` nanoseconds, a duration's `as_millis`.
pub open spec fn millis(nanos: int) -> int {
    nanos / 1_000_000
}

/// The offset of the server's clock, in milliseconds, as `time_diff` computes
/// it: the whole milliseconds between the two times, cut to 16 bits, negated
/// when the server's time is the earlier one.
pub open spec fn spec_time_diff(server: i128, machine: i128) -> i16 {
    if server >= machine {
        millis(server - machine) as i16
    } else {
        (-(millis(machine - server) as i16)) as i16
    }
}

/// Whether `time_diff` can compute its result: the two times are less than
/// `2^127` nanoseconds apart, and a negated result does not overflow.
pub open spec fn time_diff_defined(server: i128, machine: i128) -> bool {
    &&& -i128::MAX <= server - machine <= i128::MAX
    &&& server < machine ==> millis(machine - server) as i16 != i16::MIN
}

/// The offset of the server's clock relative to the machine's clock, in
/// milliseconds.
pub fn time_diff(server: i128, machine: i128) -> (r: i16)
    requires
        time_diff_defined(server, machine),
    ensures
        r == spec_time_diff(server, machine),
{
    if server >= machine {
        let ms: i128 = (server - machine) / 1_000_000;
        ms as i16
    } else {
        let ms: i128 = (machine - server) / 1_000_000;
        let cut: i16 = ms as i16;
        -cut
    }
}

/// Whether `get_diff` can compute its result.
pub open spec fn get_diff_defined(server: i128, machine: i128) -> bool {
    &&& time_diff_defined(server, machine)
    &&& spec_time_diff(server, machine) <= i16::MAX - 1000
}

/// The offsets that one answer allows: the date was written at the machine's
/// `machine` and reads `server`, with up to one second of the server's clock
/// cut off.
pub open spec fn spec_get_diff(server: i128, machine: i128) -> Range {
    Range {
        min: spec_time_diff(server, machine),
        max: (spec_time_diff(server, machine) + 1000) as i16,
    }
}

/// The window of offsets that one answer allows, assuming that the server
/// wrote its date at the machine's `machine`.
pub fn get_diff(server: i128, machine: i128) -> (r: Range)
    requires
        get_diff_defined(server, machine),
    ensures
        r == spec_get_diff(server, machine),
{
    let diff = time_diff(server, machine);
    Range { min: diff, max: diff + 1000 }
}

/// Whether `time_diff` would stop the program on these times.
pub fn time_diff_panics(server: i128, machine: i128) -> (r: bool)
    ensures
        r == !time_diff_defined(server, machine),
{
    if machine > 0 && server < i128::MIN + machine {
        return true;
    }
    if machine < 0 && server > i128::MAX + machine {
        return true;
    }
    let d: i128 = server - machine;
    if d == i128::MIN {
        return true;
    }
    if d >= 0 {
        false
    } else {
        let ms: i128 = (-d) / 1_000_000;
        let cut: i16 = ms as i16;
        cut == i16::MIN
    }
}

/// Whether `get_diff` would stop the program on these times.
pub fn get_diff_panics(server: i128, machine: i128) -> (r: bool)
    ensures
        r == !get_diff_defined(server, machine),
{
    if time_diff_panics(server, machine) {
        return true;
    }
    time_diff(server, machine) > i16::MAX - 1000
}

/// The part of a second that run number `iteration` waits for: one second
/// over `2^(iteration + 1)`, in whole nanoseconds.
pub open spec fn spec_step(iteration: u32) -> int {
    SECOND_NANOS as int / pow2((iteration + 1) as nat) as int
}

/// How long after the request's start the next request is aimed: when the
/// server's date did not change since the last run, the step; otherwise one
/// second minus the step.
pub open spec fn spec_sleep_duration(same_date: bool, iteration: u32) -> int {
    if same_date {
        spec_step(iteration)
    } else {
        SECOND_NANOS as int - spec_step(iteration)
    }
}

/// The wait of a run, in nanoseconds.
pub fn sleep_duration(same_date: bool, iteration: u32) -> (r: u64)
    requires
        iteration < MAX_RUNS,
    ensures
        r == spec_sleep_duration(same_date, iteration),
        r <= SECOND_NANOS,
{
    let k: u32 = iteration + 1;
    proof {
        lemma_u32_pow2_no_overflow(k as nat);
        lemma_u32_shl_is_mul(1, k);
    }
    let p: u32 = 1u32 << k;
    let step: u64 = SECOND_NANOS / (p as u64);
    if same_date {
        step
    } else {
        SECOND_NANOS - step
    }
}

/// When to wake up, found by `plan_sleep`. Times are nanoseconds of the
/// monotonic clock.
#[derive(Copy, Clone, Debug, PartialEq, Eq, Structural)]
pub struct SleepPlan {
    /// The moment aimed at.
    pub until: i128,
    /// How long to sleep from now.
    pub sleep: i128,
    /// Whether `until` had passed already and was moved one second later.
    pub adjusted: bool,
}

/// The bound within which monotonic times are taken, so that the arithmetic
/// on them stays in range: `2^100` nanoseconds either way, beyond what a
/// monotonic clock of whole seconds in an `i64` can hold.
pub open spec fn in_clock_range(t: int) -> bool {
    -0x10_0000_0000_0000_0000_0000_0000 <= t <= 0x10_0000_0000_0000_0000_0000_0000
}

/// The plan for waking up at `base + dur - correction`, where `correction`
/// is how late past sleeps woke up on average; if that moment is already
/// before `now`, one second later.
pub open spec fn spec_plan_sleep(base: i128, dur: u64, correction: u64, now: i128) -> SleepPlan {
    let aim = base + dur - correction;
    if aim >= now {
        SleepPlan { until: aim as i128, sleep: (aim - now) as i128, adjusted: false }
    } else {
        let later = aim + SECOND_NANOS;
        SleepPlan {
            until: later as i128,
            sleep: if later >= now { (later - now) as i128 } else { 0 },
            adjusted: true,
        }
    }
}

/// Decides how long a run sleeps before its next request.
pub fn plan_sleep(base: i128, dur: u64, correction: u64, now: i128) -> (r: SleepPlan)
    requires
        in_clock_range(base as int),
        in_clock_range(now as int),
    ensures
        r == spec_plan_sleep(base, dur, correction, now),
{
    let aim: i128 = base + (dur as i128) - (correction as i128);
    if aim >= now {
        SleepPlan { until: aim, sleep: aim - now, adjusted: false }
    } else {
        let later: i128 = aim + (SECOND_NANOS as i128);
        let sleep: i128 = if later >= now { later - now } else { 0 };
        SleepPlan { until: later, sleep, adjusted: true }
    }
}

/// How late a sleep that aimed at `until` woke up at `now`, in whole
/// microseconds; 0 when it woke early.
pub fn lateness_micros(until: i128, now: i128) -> (r: u128)
    requires
        in_clock_range(until as int),
        in_clock_range(now as int),
    ensures
        r == (if now >= until { (now - until) / 1000 } else { 0 }),
{
    if now >= until {
        ((now - until) / 1000) as u128
    } else {
        0
    }
}

/// The offsets that the answers `answers` leave, run after run, starting
/// from every offset.
pub open spec fn spec_offsets_after(answers: Seq<PingResult>) -> Range
    decreases answers.len(),
{
    if answers.len() == 0 {
        Range { min: i16::MIN, max: i16::MAX }
    } else {
        spec_offsets_after(answers.drop_last()).spec_intersect(
            spec_get_diff(answers.last().server_time, answers.last().machine_time),
        )
    }
}

/// A run carries the estimate that earlier answers left to the one that all
/// answers so far leave.
pub proof fn lemma_run_extends(c: Client, answers: Seq<PingResult>, ping: PingResult, after: Client)
    requires
        c.spec_range() == spec_offsets_after(answers),
        after.spec_range() == c.spec_range().spec_intersect(
            spec_get_diff(ping.server_time, ping.machine_time),
        ),
    ensures
        after.spec_range() == spec_offsets_after(answers.push(ping)),
{
    assert(answers.push(ping).drop_last() == answers);
}

/// After any answers, the estimate holds exactly the offsets that every
/// answer's window holds: the window of all possible offsets found so far.
pub proof fn lemma_offsets_after(answers: Seq<PingResult>, x: int)
    requires
        i16::MIN <= x <= i16::MAX,
    ensures
        spec_offsets_after(answers).contains(x) <==> forall|i: int|
            0 <= i < answers.len() ==> #[trigger] spec_get_diff(
                answers[i].server_time,
                answers[i].machine_time,
            ).contains(x),
    decreases answers.len(),
{
    if answers.len() > 0 {
        let rest = answers.drop_last();
        lemma_offsets_after(rest, x);
        let last = answers.last();
        lemma_intersect_contains(
            spec_offsets_after(rest),
            spec_get_diff(last.server_time, last.machine_time),
            x,
        );
        if spec_offsets_after(answers).contains(x) {
            assert forall|i: int| 0 <= i < answers.len() implies #[trigger] spec_get_diff(
                answers[i].server_time,
                answers[i].machine_time,
            ).contains(x) by {
                if i < answers.len() - 1 {
                    assert(answers[i] == rest[i]);
                }
            }
        } else {
            if spec_offsets_after(rest).contains(x) {
                assert(!spec_get_diff(
                    answers[answers.len() - 1].server_time,
                    answers[answers.len() - 1].machine_time,
                ).contains(x));
            } else {
                let j = choose|j: int| 0 <= j < rest.len() && !#[trigger] spec_get_diff(
                    rest[j].server_time,
                    rest[j].machine_time,
                ).contains(x);
                assert(answers[j] == rest[j]);
            }
        }
    }
}

/// An offset that every answer allows is never lost: the estimate still
/// holds it.
pub proof fn lemma_true_offset_kept(answers: Seq<PingResult>, x: int)
    requires
        i16::MIN <= x <= i16::MAX,
        forall|i: int|
            0 <= i < answers.len() ==> #[trigger] spec_get_diff(
                answers[i].server_time,
                answers[i].machine_time,
            ).contains(x),
    ensures
        spec_offsets_after(answers).contains(x),
{
    lemma_offsets_after(answers, x);
}

/// The window of offsets that the answer `p` allows.
pub open spec fn answer_window(p: PingResult) -> Range {
    spec_get_diff(p.server_time, p.machine_time)
}

/// Runs never widen the estimate: after the first `k` answers it lies
/// within the estimate after the first `j`, for any `j <= k`.
pub proof fn lemma_offsets_never_widen(answers: Seq<PingResult>, j: int, k: int)
    requires
        0 <= j <= k <= answers.len(),
    ensures
        spec_offsets_after(answers.take(k)).min >= spec_offsets_after(answers.take(j)).min,
        spec_offsets_after(answers.take(k)).max <= spec_offsets_after(answers.take(j)).max,
    decreases k - j,
{
    if j < k {
        lemma_offsets_never_widen(answers, j, k - 1);
        assert(answers.take(k).drop_last() =~= answers.take(k - 1));
    }
}

/// After one or more answers, the estimate's lower end is the greatest of
/// the answers' lower ends, and its upper end the least of their upper ends.
pub proof fn lemma_offsets_after_bounds(answers: Seq<PingResult>)
    requires
        answers.len() > 0,
    ensures
        forall|i: int|
            0 <= i < answers.len() ==> spec_offsets_after(answers).min >= #[trigger] answer_window(
                answers[i],
            ).min && spec_offsets_after(answers).max <= answer_window(answers[i]).max,
        exists|i: int|
            0 <= i < answers.len() && spec_offsets_after(answers).min == #[trigger] answer_window(
                answers[i],
            ).min,
        exists|i: int|
            0 <= i < answers.len() && spec_offsets_after(answers).max == #[trigger] answer_window(
                answers[i],
            ).max,
    decreases answers.len(),
{
    let rest = answers.drop_last();
    let last = answers.len() - 1;
    let r = spec_offsets_after(answers);
    assert(answers[last] == answers.last());
    if answers.len() == 1 {
        assert(rest.len() == 0);
        assert(spec_offsets_after(rest) == Range { min: i16::MIN, max: i16::MAX });
        assert(r == answer_window(answers[0]));
    } else {
        lemma_offsets_after_bounds(rest);
        let q = spec_offsets_after(rest);
        assert forall|i: int| 0 <= i < answers.len() implies r.min >= #[trigger] answer_window(
            answers[i],
        ).min && r.max <= answer_window(answers[i]).max by {
            if i < last {
                assert(answers[i] == rest[i]);
                assert(q.min >= answer_window(rest[i]).min);
            }
        }
        if r.min == answer_window(answers[last]).min {
        } else {
            let i = choose|i: int| 0 <= i < rest.len() && q.min == #[trigger] answer_window(rest[i]).min;
            assert(answers[i] == rest[i]);
            assert(r.min == answer_window(answers[i]).min);
        }
        if r.max == answer_window(answers[last]).max {
        } else {
            let i = choose|i: int| 0 <= i < rest.len() && q.max == #[trigger] answer_window(rest[i]).max;
            assert(answers[i] == rest[i]);
            assert(r.max == answer_window(answers[i]).max);
        }
    }
}

/// Swapping the two clocks negates the offset, while it is under 32768
/// milliseconds either way.
pub proof fn lemma_time_diff_antisymmetric(a: i128, b: i128)
    requires
        -i128::MAX <= a - b <= i128::MAX,
        millis(if a >= b { a - b } else { b - a }) < 32768,
    ensures
        spec_time_diff(a, b) == -spec_time_diff(b, a),
{
    let m = millis(if a >= b { a - b } else { b - a });
    assert(0 <= m);
    assert(m as i16 == m);
}

/// Each run's step is half the previous run's, rounded down: the window in
/// which the server's second is searched halves with every run.
pub proof fn lemma_step_halves(iteration: u32)
    requires
        iteration + 1 < MAX_RUNS,
    ensures
        spec_step((iteration + 1) as u32) == spec_step(iteration) / 2,
        spec_step(0) == 500_000_000,
{
    let k = (iteration + 1) as nat;
    lemma_pow2_pos(k);
    lemma_pow2_unfold(k + 1);
    lemma_div_denominator(SECOND_NANOS as int, pow2(k) as int, 2);
    assert(pow2(k) * 2 == pow2(k + 1));
    assert(((iteration + 1) as u32 + 1) as nat == k + 1);
    lemma2_to64();
    assert(((0u32 + 1) as nat) == 1);
    assert(spec_step(0) == SECOND_NANOS as int / pow2(1) as int);
}

/// A plan wakes up at the moment it aims at, unless that moment had passed
/// even after being moved one second later; a moved plan aims one second
/// after the first aim.
pub proof fn lemma_plan_sleep_wakes_at_until(base: i128, dur: u64, correction: u64, now: i128)
    requires
        in_clock_range(base as int),
        in_clock_range(now as int),
    ensures
        ({
            let p = spec_plan_sleep(base, dur, correction, now);
            &&& p.until >= now ==> now + p.sleep == p.until
            &&& p.sleep >= 0
            &&& p.adjusted <==> base + dur - correction < now
            &&& p.until == base + dur - correction + (if p.adjusted { SECOND_NANOS as int } else { 0 })
        }),
{
}

/// The estimate kept between runs.
#[derive(Copy, Clone, Debug, PartialEq, Eq, Structural)]
pub struct Client {
    range: Range,
    prev_server_time: i128,
    iteration: u32,
}

impl Client {
    /// The offsets still allowed.
    pub closed spec fn spec_range(self) -> Range {
        self.range
    }

    /// The server's date that the last run expected to see next.
    pub closed spec fn spec_prev_server_time(self) -> i128 {
        self.prev_server_time
    }

    /// The number of completed runs.
    pub closed spec fn spec_iteration(self) -> u32 {
        self.iteration
    }

    /// Whether a run can start on this estimate with this answer.
    pub open spec fn run_defined(self, ping: PingResult) -> bool {
        &&& self.spec_iteration() < MAX_RUNS
        &&& get_diff_defined(ping.server_time, ping.machine_time)
    }

    /// An estimate that allows every offset, before any run.
    pub fn new() -> (r: Self)
        ensures
            r.spec_range() == (Range { min: i16::MIN, max: i16::MAX }),
            r.spec_prev_server_time() == 0,
            r.spec_iteration() == 0,
    {
        Client { range: Range::new(i16::MIN, i16::MAX), prev_server_time: 0, iteration: 0 }
    }

    /// The offsets, in milliseconds, still allowed.
    pub fn range(&self) -> (r: Range)
        ensures
            r == self.spec_range(),
    {
        self.range
    }

    /// The number of completed runs.
    pub fn iteration(&self) -> (r: u32)
        ensures
            r == self.spec_iteration(),
    {
        self.iteration
    }

    /// Whether `begin_run` would stop the program on this estimate and this
    /// answer.
    pub fn run_panics(&self, ping: &PingResult) -> (r: bool)
        ensures
            r == !self.run_defined(*ping),
    {
        self.iteration >= MAX_RUNS || get_diff_panics(ping.server_time, ping.machine_time)
    }

    /// The first half of a run, once the server has answered: narrows the
    /// offsets to those that the answer allows and returns how long after
    /// the request's start the next request is aimed, in nanoseconds.
    pub fn begin_run(&mut self, ping: &PingResult) -> (dur: u64)
        requires
            old(self).run_defined(*ping),
        ensures
            final(self).spec_range() == old(self).spec_range().spec_intersect(
                spec_get_diff(ping.server_time, ping.machine_time),
            ),
            final(self).spec_prev_server_time() == old(self).spec_prev_server_time(),
            final(self).spec_iteration() == old(self).spec_iteration(),
            dur == spec_sleep_duration(
                old(self).spec_prev_server_time() == ping.server_time,
                old(self).spec_iteration(),
            ),
    {
        let range = get_diff(ping.server_time, ping.machine_time);
        self.range.transpose(range);
        sleep_duration(self.prev_server_time == ping.server_time, self.iteration)
    }

    /// The second half of a run, after the sleep: the next answer is expected
    /// to read `server_time`, one second later if the sleep was moved, and
    /// the run is counted. Returns the offsets still allowed.
    pub fn end_run(&mut self, server_time: i128, adjusted: bool) -> (r: Range)
        requires
            old(self).spec_iteration() < MAX_RUNS,
            server_time + SECOND_NANOS <= i128::MAX,
        ensures
            final(self).spec_range() == old(self).spec_range(),
            final(self).spec_prev_server_time() == server_time + (if adjusted { SECOND_NANOS as int } else { 0 }),
            final(self).spec_iteration() == old(self).spec_iteration() + 1,
            r == final(self).spec_range(),
    {
        self.prev_server_time = if adjusted { server_time + (SECOND_NANOS as i128) } else { server_time };
        self.iteration = self.iteration + 1;
        self.range
    }
}

} // verus!
