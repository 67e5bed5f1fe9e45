//! Timing figures of a benchmark round, from its total duration.
use vstd::prelude::*;

use vstd::arithmetic::div_mod::lemma_div_denominator;

verus! {

pub const NANOS_PER_MICRO: u128 = 1000;

pub const NANOS_PER_MILLI: u128 = 1_000_000;

/// Total and average latency of a round, in several units. The averages
/// are absent when no response was asked for.
#[derive(Debug, PartialEq, Eq, Structural, Clone, Copy)]
pub struct LatencyReport {
    pub total_nanos: u128,
    pub total_micros: u128,
    pub total_millis: u128,
    pub avg_nanos: Option<u128>,
    pub avg_micros: Option<u128>,
    pub avg_millis: Option<u128>,
}

/// The figures of a round that took `total_nanos` nanoseconds for `count`
/// responses. Each unit is truncated from the total, and each average is that
/// total divided by `count`.
pub fn latency_report(total_nanos: u128, count: u32) -> (r: LatencyReport)
    ensures
        r.total_nanos == total_nanos,
        r.total_micros == total_nanos / 1000,
        r.total_millis == total_nanos / 1_000_000,
        count == 0 ==> r.avg_nanos is None && r.avg_micros is None && r.avg_millis is None,
        count > 0 ==> r.avg_nanos == Some((total_nanos / count as u128) as u128),
        count > 0 ==> r.avg_micros == Some(((total_nanos / 1000) / count as u128) as u128),
        count > 0 ==> r.avg_millis == Some(((total_nanos / 1_000_000) / count as u128) as u128),
{
    let total_micros = total_nanos / NANOS_PER_MICRO;
    let total_millis = total_nanos / NANOS_PER_MILLI;
    if count == 0 {
        LatencyReport {
            total_nanos,
            total_micros,
            total_millis,
            avg_nanos: None,
            avg_micros: None,
            avg_millis: None,
        }
    } else {
        let n = count as u128;
        LatencyReport {
            total_nanos,
            total_micros,
            total_millis,
            avg_nanos: Some(total_nanos / n),
            avg_micros: Some(total_micros / n),
            avg_millis: Some(total_millis / n),
        }
    }
}

/// A count of microseconds as whole milliseconds and the thousandths left
/// over.
pub fn split_millis(micros: u128) -> (r: (u128, u128))
    ensures
        r.0 == micros / 1000,
        r.1 == micros % 1000,
        r.0 * 1000 + r.1 == micros,
{
    (micros / 1000, micros % 1000)
}

/// The averages agree across units: averaging in microseconds or
/// milliseconds gives the nanosecond average truncated to that unit.
pub proof fn lemma_average_units(total_nanos: nat, count: nat)
    requires
        count > 0,
    ensures
        (total_nanos / 1000) / count == (total_nanos / count) / 1000,
        (total_nanos / 1_000_000) / count == (total_nanos / count) / 1_000_000,
{
    lemma_div_denominator(total_nanos as int, 1000, count as int);
    lemma_div_denominator(total_nanos as int, count as int, 1000);
    lemma_div_denominator(total_nanos as int, 1_000_000, count as int);
    lemma_div_denominator(total_nanos as int, count as int, 1_000_000);
    assert(1000 * count == count * 1000) by (nonlinear_arith);
    assert(1_000_000 * count == count * 1_000_000) by (nonlinear_arith);
}

} // verus!
