//! A running average of durations packed in one atomic 32-bit word.
//!
//! The high 8 bits of the word count the samples; the low 24 bits hold the
//! sum of the samples in microseconds, each sample cut to its low 24 bits.
//! A sample is added with one atomic addition of `2^24 + micros`, so an
//! overflow of the sum carries into the count, and the count wraps after
//! 256 samples, exactly as the word's arithmetic does.

use std::sync::atomic::AtomicU32;
use std::time::Duration;
use vstd::arithmetic::div_mod::{
    lemma_add_mod_noop, lemma_div_multiples_vanish_fancy, lemma_fundamental_div_mod,
    lemma_mod_breakdown, lemma_mod_mod, lemma_mod_multiples_vanish,
};
use vstd::prelude::*;

verus! {

/// `2^24`: one unit of the count field, and the bound of the sum field.
pub open spec fn count_unit() -> int {
    0x100_0000
}

/// `2^32`: the word wraps modulo this.
pub open spec fn word_modulus() -> int {
    0x1_0000_0000
}

/// What one sample of `micros` microseconds adds to the word.
pub open spec fn spec_sample(micros: int) -> int {
    count_unit() + micros % count_unit()
}

/// The count field of a word.
pub open spec fn spec_count(word: u32) -> int {
    word as int / count_unit()
}

/// The sum field of a word, in microseconds.
pub open spec fn spec_sum(word: u32) -> int {
    word as int % count_unit()
}

/// The average in nanoseconds of `sum` microseconds over `count` samples, an
/// empty count standing for one sample.
pub open spec fn spec_average_nanos(count: int, sum: int) -> int {
    sum * 1000 / (if count == 0 { 1 } else { count })
}

/// The word after adding each sample of `samples` in turn to a word of 0.
pub open spec fn spec_accumulate(samples: Seq<u128>) -> int
    decreases samples.len(),
{
    if samples.len() == 0 {
        0
    } else {
        (spec_accumulate(samples.drop_last()) + spec_sample(samples.last() as int))
            % word_modulus()
    }
}

/// The sum of the samples, each cut to its low 24 bits.
pub open spec fn spec_low_sum(samples: Seq<u128>) -> int
    decreases samples.len(),
{
    if samples.len() == 0 {
        0
    } else {
        spec_low_sum(samples.drop_last()) + samples.last() as int % count_unit()
    }
}

/// An average of durations that can be updated and read through a shared
/// reference from any thread.
pub struct AtomicAverage {
    inner: AtomicU32,
}

/// The whole number of nanoseconds in `d`: what `Duration::as_nanos`
/// returns.
pub uninterp spec fn duration_nanos(d: Duration) -> u128;

/// Returns the whole number of microseconds in `d`, through
/// `Duration::as_micros`, which std documents as the total number of whole
/// microseconds: the nanoseconds divided by 1000, rounded down.
#[verifier::external_body]
fn duration_as_micros(d: &Duration) -> (r: u128)
    ensures
        r == duration_nanos(*d) / 1000,
{
    d.as_micros()
}

/// Returns the duration of `nanos` nanoseconds, through
/// `Duration::from_nanos`, which std documents as creating a duration of
/// exactly that many nanoseconds.
#[verifier::external_body]
fn duration_from_nanos(nanos: u64) -> (r: Duration)
    ensures
        duration_nanos(r) == nanos,
{
    Duration::from_nanos(nanos)
}

/// The word increment for one sample of `micros` microseconds: one count and
/// the sample's low 24 bits.
pub fn sample(micros: u128) -> (w: u32)
    ensures
        w == spec_sample(micros as int),
{
    let dur = (micros as u32) & 0x00ff_ffff;
    let count: u32 = 1 << 24;
    proof {
        assert((micros as u32) & 0x00ff_ffff == micros % 0x100_0000) by (bit_vector);
        assert(dur < 0x100_0000 ==> (count | dur) == 0x100_0000 + dur) by (bit_vector)
            requires count == 1u32 << 24u32;
        assert(dur < 0x100_0000) by (bit_vector)
            requires dur == (micros as u32) & 0x00ff_ffff;
    }
    count | dur
}

/// Splits a word into its count and its sum.
pub fn decode(inner: u32) -> (r: (u8, u32))
    ensures
        r.0 == spec_count(inner),
        r.1 == spec_sum(inner),
        r.1 < 0x100_0000,
{
    proof {
        assert(((inner & 0xff00_0000) >> 24) == inner / 0x100_0000) by (bit_vector);
        assert((inner & 0x00ff_ffff) == inner % 0x100_0000) by (bit_vector);
        assert(inner / 0x100_0000 < 256) by (bit_vector);
    }
    (((inner & 0xff00_0000) >> 24) as u8, inner & 0x00ff_ffff)
}

/// The average in nanoseconds of `sum` microseconds over `count` samples;
/// a count of 0 divides by 1.
pub fn average_nanos(count: u8, sum: u32) -> (r: u64)
    ensures
        r == spec_average_nanos(count as int, sum as int),
{
    let divisor: u64 = if count == 0 { 1 } else { count as u64 };
    (sum as u64) * 1000 / divisor
}

/// The word increment for the sample `dur`, counted in whole microseconds:
/// one count and the low 24 bits of the microseconds.
pub fn duration_sample(dur: &Duration) -> (w: u32)
    ensures
        w == spec_sample((duration_nanos(*dur) / 1000) as int),
{
    sample(duration_as_micros(dur))
}

impl AtomicAverage {
    /// An average of no samples: the word starts at 0. vstd's specification
    /// of `AtomicU32` gives no view of an atomic's value, so no clause says so.
    pub fn new() -> (r: Self) {
        AtomicAverage { inner: AtomicU32::new(0) }
    }

    /// Reads the word. Other threads may change it at any time, so any
    /// value can come back.
    fn load_word(&self) -> u32 {
        self.inner.load(std::sync::atomic::Ordering::Relaxed)
    }

    /// Adds `word` to the word atomically, wrapping modulo `2^32`.
    fn add_word(&self, word: u32) {
        self.inner.fetch_add(word, std::sync::atomic::Ordering::Relaxed);
    }

    /// Reads the count and the sum at one moment.
    pub fn load(&self) -> (r: (u8, u32))
        ensures
            exists|w: u32| r.0 == spec_count(w) && r.1 == spec_sum(w),
    {
        let w = self.load_word();
        decode(w)
    }

    /// Adds a sample of `micros` microseconds: the word grows by
    /// `sample(micros)`, modulo `2^32`. The increment is computed by the
    /// verified `sample`; the atomic addition itself has no view in vstd's
    /// specification of `AtomicU32`, so no clause states the word after it.
    pub fn add_micros(&self, micros: u128) {
        self.add_word(sample(micros));
    }

    /// Adds the sample `dur`, counted in whole microseconds: the word grows
    /// by `duration_sample(dur)`, that is `spec_sample(duration_nanos(dur) /
    /// 1000)`, modulo `2^32`. As for `add_micros`, the increment is verified
    /// and the atomic addition is not stated.
    pub fn add(&self, dur: Duration) {
        self.add_word(duration_sample(&dur));
    }

    /// The average of the samples in nanoseconds, as read at one moment.
    pub fn get_nanos(&self) -> (r: u64)
        ensures
            exists|w: u32| r == spec_average_nanos(spec_count(w), spec_sum(w)),
    {
        let (count, val) = self.load();
        average_nanos(count, val)
    }

    /// The average of the samples, as read at one moment.
    pub fn get(&self) -> (r: Duration)
        ensures
            exists|w: u32| duration_nanos(r) == spec_average_nanos(spec_count(w), spec_sum(w)),
    {
        let nanos = self.get_nanos();
        duration_from_nanos(nanos)
    }
}

/// After any samples, the word is the number of samples times `2^24` plus the
/// sum of their low 24 bits, modulo `2^32`.
pub proof fn lemma_accumulate_word(samples: Seq<u128>)
    ensures
        spec_accumulate(samples)
            == (samples.len() * count_unit() + spec_low_sum(samples)) % word_modulus(),
    decreases samples.len(),
{
    if samples.len() > 0 {
        let rest = samples.drop_last();
        lemma_accumulate_word(rest);
        let x = rest.len() * count_unit() + spec_low_sum(rest);
        let s = spec_sample(samples.last() as int);
        lemma_add_mod_noop(x, s, word_modulus());
        lemma_add_mod_noop(x % word_modulus(), s, word_modulus());
        assert((x % word_modulus()) % word_modulus() == x % word_modulus()) by {
            lemma_mod_mod(x, word_modulus(), 1);
        }
        assert(x + s == samples.len() * count_unit() + spec_low_sum(samples));
    }
}

/// The sum of the low 24 bits of the samples is never negative.
proof fn lemma_low_sum_nonneg(samples: Seq<u128>)
    ensures
        spec_low_sum(samples) >= 0,
    decreases samples.len(),
{
    if samples.len() > 0 {
        lemma_low_sum_nonneg(samples.drop_last());
    }
}

/// What a reader finds after samples were added to a fresh average: the count
/// is the number of samples plus the carries out of the sum, modulo 256, and
/// the sum is the total of the samples' low 24 bits, modulo `2^24`.
pub proof fn lemma_accumulate_decode(samples: Seq<u128>)
    ensures
        0 <= spec_accumulate(samples) < word_modulus(),
        spec_count(spec_accumulate(samples) as u32)
            == (samples.len() + spec_low_sum(samples) / count_unit()) % 256,
        spec_sum(spec_accumulate(samples) as u32) == spec_low_sum(samples) % count_unit(),
{
    lemma_accumulate_word(samples);
    lemma_low_sum_nonneg(samples);
    let n = samples.len() as int;
    let s = spec_low_sum(samples);
    let u = count_unit();
    let x = n * u + s;
    let w = x % word_modulus();
    assert(word_modulus() == u * 256);
    lemma_mod_breakdown(x, u, 256);
    lemma_mod_mod(x, u, 256);
    lemma_mod_multiples_vanish(n, s, u);
    lemma_fundamental_div_mod(s, u);
    assert(x == u * (n + s / u) + s % u) by (nonlinear_arith)
        requires
            x == n * u + s,
            s == u * (s / u) + s % u;
    lemma_div_multiples_vanish_fancy(n + s / u, s % u, u);
    lemma_div_multiples_vanish_fancy((x / u) % 256, x % u, u);
}

/// While fewer than 256 samples were added and their low 24 bits sum to less
/// than `2^24`, the reader finds exactly their number and their sum, and the
/// average is their mean in nanoseconds.
pub proof fn lemma_accumulate_exact(samples: Seq<u128>)
    requires
        samples.len() < 256,
        spec_low_sum(samples) < count_unit(),
    ensures
        spec_count(spec_accumulate(samples) as u32) == samples.len(),
        spec_sum(spec_accumulate(samples) as u32) == spec_low_sum(samples),
        spec_average_nanos(
            spec_count(spec_accumulate(samples) as u32),
            spec_sum(spec_accumulate(samples) as u32),
        ) == spec_low_sum(samples) * 1000 / (if samples.len() == 0 { 1 } else { samples.len() as int }),
{
    lemma_accumulate_decode(samples);
    lemma_low_sum_nonneg(samples);
}

/// The whole microseconds in `d`, as a sample counts them.
pub open spec fn duration_micros(d: Duration) -> u128 {
    duration_nanos(d) / 1000
}

/// The whole microseconds of each duration, in order.
pub open spec fn micros_of(durations: Seq<Duration>) -> Seq<u128> {
    durations.map_values(|d: Duration| duration_micros(d))
}

/// The total of the whole microseconds of the durations.
pub open spec fn total_micros(durations: Seq<Duration>) -> int
    decreases durations.len(),
{
    if durations.len() == 0 {
        0
    } else {
        total_micros(durations.drop_last()) + duration_micros(durations.last()) as int
    }
}

/// While the total stays below `2^24`, no sample loses bits to the cut.
proof fn lemma_low_sum_of_durations(durations: Seq<Duration>)
    requires
        total_micros(durations) < count_unit(),
    ensures
        spec_low_sum(micros_of(durations)) == total_micros(durations),
        total_micros(durations) >= 0,
    decreases durations.len(),
{
    if durations.len() > 0 {
        let rest = durations.drop_last();
        assert(micros_of(durations).drop_last() =~= micros_of(rest));
        lemma_total_micros_nonneg(rest);
        lemma_low_sum_of_durations(rest);
        let last = duration_micros(durations.last()) as int;
        assert(micros_of(durations).last() == duration_micros(durations.last()));
        assert(last % count_unit() == last) by {
            vstd::arithmetic::div_mod::lemma_small_mod(last as nat, count_unit() as nat);
        }
    }
}

/// The total of whole microseconds is never negative.
proof fn lemma_total_micros_nonneg(durations: Seq<Duration>)
    ensures
        total_micros(durations) >= 0,
    decreases durations.len(),
{
    if durations.len() > 0 {
        lemma_total_micros_nonneg(durations.drop_last());
    }
}

/// Adding the durations `d_1, ..., d_k` to a fresh average, with fewer than
/// 256 of them and less than `2^24` microseconds in all, leaves a word whose
/// count is `k` and whose sum is their total in whole microseconds; the
/// average read from it is their mean in nanoseconds.
pub proof fn lemma_durations_average(durations: Seq<Duration>)
    requires
        durations.len() < 256,
        total_micros(durations) < count_unit(),
    ensures
        spec_count(spec_accumulate(micros_of(durations)) as u32) == durations.len(),
        spec_sum(spec_accumulate(micros_of(durations)) as u32) == total_micros(durations),
        spec_average_nanos(
            spec_count(spec_accumulate(micros_of(durations)) as u32),
            spec_sum(spec_accumulate(micros_of(durations)) as u32),
        ) == total_micros(durations) * 1000 / (if durations.len() == 0 {
            1
        } else {
            durations.len() as int
        }),
{
    lemma_low_sum_of_durations(durations);
    lemma_accumulate_exact(micros_of(durations));
}

} // verus!
