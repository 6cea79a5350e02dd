//! Time from the processor's time-stamp counter.
use vstd::arithmetic::div_mod::*;
use vstd::prelude::*;

verus! {

/// Ticks of the interval timer in a second.
pub const PIT_FREQ: u64 = 1_193_182;

/// Ticks of the interval timer that a calibration takes.
pub const PIT_RELOAD: u64 = 0xFFFF;

/// Why the counter cannot be used.
#[derive(Debug, Copy, Clone, PartialEq, Eq, Structural)]
pub enum TscError {
    /// The counter does not run at a constant rate.
    NotInvariant,
}

/// Where the rate of the counter comes from.
#[derive(Debug, Copy, Clone, PartialEq, Eq, Structural)]
pub enum TscSource {
    /// The processor tells it.
    Reported(u64),
    /// It has to be measured.
    Calibrate,
}

/// Where the rate of the counter comes from, if the counter can be used.
pub open spec fn source_of(constant_rate: bool, reported: Option<u64>) -> Result<
    TscSource,
    TscError,
> {
    if !constant_rate {
        Err(TscError::NotInvariant)
    } else {
        match reported {
            Some(freq) if freq > 0 => Ok(TscSource::Reported(freq)),
            _ => Ok(TscSource::Calibrate),
        }
    }
}

/// Decides where the rate comes from. The counter must run at a constant rate;
/// a rate of zero that the processor tells is none.
pub fn init(constant_rate: bool, reported: Option<u64>) -> (r: Result<TscSource, TscError>)
    ensures
        r == source_of(constant_rate, reported),
        r is Err <==> !constant_rate,
        r matches Err(e) ==> e == TscError::NotInvariant,
        r matches Ok(TscSource::Reported(freq)) ==> reported == Some(freq) && freq > 0,
        r matches Ok(TscSource::Calibrate) ==> reported is None || reported == Some(0u64),
{
    if !constant_rate {
        return Err(TscError::NotInvariant);
    }
    match reported {
        Some(freq) => {
            if freq > 0 {
                Ok(TscSource::Reported(freq))
            } else {
                Ok(TscSource::Calibrate)
            }
        },
        None => Ok(TscSource::Calibrate),
    }
}

/// Rate of the counter, from its values at the start and the end of a run of
/// the interval timer.
pub fn calibrate_with_pit(start: u64, end: u64) -> (freq: u64)
    requires
        start <= end,
        (end - start) * PIT_FREQ <= u64::MAX,
    ensures
        freq == (end - start) * PIT_FREQ / PIT_RELOAD as int,
        freq * 65535 <= (end - start) * 1_193_182 < (freq + 1) * 65535,
{
    (end - start) * PIT_FREQ / PIT_RELOAD
}

/// Nanoseconds that a number of ticks takes.
pub open spec fn nanoseconds(ticks: int, hz: int) -> int {
    ticks * 1_000_000_000 / hz
}

/// Nanoseconds since boot at a value of the counter, as far as 64 bits hold
/// them.
pub open spec fn time_at(tsc: int, boot: int, hz: int) -> int {
    nanoseconds(tsc - boot, hz) % 0x1_0000_0000_0000_0000
}

/// Nanoseconds since boot, from the counter's value then and now and its rate.
/// Only the low 64 bits are kept.
pub fn current_time_ns(tsc: u64, boot: u64, hz: u64) -> (ns: u64)
    requires
        boot <= tsc,
        hz > 0,
    ensures
        ns == time_at(tsc as int, boot as int, hz as int),
        (tsc - boot) * 1_000_000_000 < 0x1_0000_0000_0000_0000 * hz ==> ns * hz <= (tsc - boot)
            * 1_000_000_000 < (ns + 1) * hz,
{
    proof {
        if (tsc - boot) * 1_000_000_000 < 0x1_0000_0000_0000_0000 * hz {
            law_time_counts_ticks(tsc as int, boot as int, hz as int);
        }
    }
    let ticks: u128 = (tsc - boot) as u128;
    let wide: u128 = ticks * 1_000_000_000 / hz as u128;
    proof {
        assert(wide as u64 == wide % 0x1_0000_0000_0000_0000) by (bit_vector);
    }
    wide as u64
}

/// The time since boot is that of the ticks since boot, to the nanosecond: so
/// many nanoseconds have passed, and not one more, until the time no longer fits
/// in 64 bits.
pub proof fn law_time_counts_ticks(tsc: int, boot: int, hz: int)
    requires
        boot <= tsc,
        hz > 0,
        (tsc - boot) * 1_000_000_000 < 0x1_0000_0000_0000_0000 * hz,
    ensures
        time_at(tsc, boot, hz) * hz <= (tsc - boot) * 1_000_000_000,
        (tsc - boot) * 1_000_000_000 < (time_at(tsc, boot, hz) + 1) * hz,
        0 <= time_at(tsc, boot, hz) < 0x1_0000_0000_0000_0000,
{
    let a = (tsc - boot) * 1_000_000_000;
    let q = a / hz;
    lemma_fundamental_div_mod(a, hz);
    lemma_mod_bound(a, hz);
    lemma_div_pos_is_pos(a, hz);
    assert(q * hz <= a < (q + 1) * hz) by (nonlinear_arith)
        requires
            a == hz * q + a % hz,
            0 <= a % hz < hz,
    ;
    assert(q < 0x1_0000_0000_0000_0000) by (nonlinear_arith)
        requires
            q * hz <= a,
            a < 0x1_0000_0000_0000_0000 * hz,
            hz > 0,
    ;
    lemma_small_mod(q as nat, 0x1_0000_0000_0000_0000);
}

/// However much time has passed, what is told of it are its low 64 bits: with
/// some number of spans of 2^64 nanoseconds added, it is the time of the ticks.
pub proof fn law_time_wraps(tsc: int, boot: int, hz: int) -> (spans: int)
    requires
        boot <= tsc,
        hz > 0,
    ensures
        spans >= 0,
        0 <= time_at(tsc, boot, hz) < 0x1_0000_0000_0000_0000,
        (spans * 0x1_0000_0000_0000_0000 + time_at(tsc, boot, hz)) * hz <= (tsc - boot)
            * 1_000_000_000,
        (tsc - boot) * 1_000_000_000 < (spans * 0x1_0000_0000_0000_0000 + time_at(tsc, boot, hz)
            + 1) * hz,
{
    let a = (tsc - boot) * 1_000_000_000;
    let q = a / hz;
    lemma_fundamental_div_mod(a, hz);
    lemma_mod_bound(a, hz);
    lemma_div_pos_is_pos(a, hz);
    assert(q * hz <= a < (q + 1) * hz) by (nonlinear_arith)
        requires
            a == hz * q + a % hz,
            0 <= a % hz < hz,
    ;
    q / 0x1_0000_0000_0000_0000
}

/// A second of ticks is a second of time, at every rate.
pub proof fn law_seconds_are_seconds(tsc: int, boot: int, hz: int, seconds: int)
    requires
        hz > 0,
        seconds >= 0,
        tsc - boot == hz * seconds,
        seconds * 1_000_000_000 < 0x1_0000_0000_0000_0000,
    ensures
        time_at(tsc, boot, hz) == seconds * 1_000_000_000,
{
    let ns = seconds * 1_000_000_000;
    assert((tsc - boot) * 1_000_000_000 == ns * hz && 0 <= tsc - boot && ns * hz
        < 0x1_0000_0000_0000_0000 * hz) by (nonlinear_arith)
        requires
            tsc - boot == hz * seconds,
            ns == seconds * 1_000_000_000,
            0 <= ns < 0x1_0000_0000_0000_0000,
            seconds >= 0,
            hz > 0,
    ;
    law_time_counts_ticks(tsc, boot, hz);
    let t = time_at(tsc, boot, hz);
    assert(t == ns) by (nonlinear_arith)
        requires
            t * hz <= ns * hz,
            ns * hz < (t + 1) * hz,
            hz > 0,
    ;
}

/// The time to report when it is `now`, after `last` was reported: `now`, or
/// the least time after `last` where the clock has not gone past it.
pub open spec fn time_after(last: int, now: int) -> int {
    if now > last {
        now
    } else {
        last + 1
    }
}

/// The time to report when it is `now`, after `last` was reported. It is later
/// than `last`, and no earlier than `now`.
pub fn later_time(last: u64, now: u64) -> (t: u64)
    requires
        last < u64::MAX,
    ensures
        t > last,
        t >= now,
        now > last ==> t == now,
        now <= last ==> t == last + 1,
        t == time_after(last as int, now as int),
{
    if now > last {
        now
    } else {
        last + 1
    }
}

/// The time that is reported at each reading of the clock, when `last` was
/// reported before the first of them.
pub open spec fn reported(last: int, readings: Seq<int>) -> Seq<int>
    decreases readings.len(),
{
    if readings.len() == 0 {
        seq![]
    } else {
        let before = reported(last, readings.drop_last());
        let previous = if before.len() == 0 {
            last
        } else {
            before.last()
        };
        before.push(time_after(previous, readings.last()))
    }
}

/// Reported times rise strictly from one report to the next, whatever the clock
/// reads, and none is earlier than its reading.
pub proof fn law_reported_times_rise(last: int, readings: Seq<int>)
    ensures
        reported(last, readings).len() == readings.len(),
        forall|i: int|
            0 <= i < readings.len() ==> last < #[trigger] reported(last, readings)[i]
                && readings[i] <= reported(last, readings)[i],
        forall|i: int, j: int|
            0 <= i < j < readings.len() ==> #[trigger] reported(last, readings)[i]
                < #[trigger] reported(last, readings)[j],
    decreases readings.len(),
{
    if readings.len() > 0 {
        law_reported_times_rise(last, readings.drop_last());
        let before = reported(last, readings.drop_last());
        let all = reported(last, readings);
        assert forall|i: int| 0 <= i < readings.len() implies last < #[trigger] all[i]
            && readings[i] <= all[i] by {
            if i < readings.len() - 1 {
                assert(all[i] == before[i]);
                assert(readings.drop_last()[i] == readings[i]);
            } else if before.len() > 0 {
                assert(last < before[before.len() - 1]);
            }
        }
        assert forall|i: int, j: int| 0 <= i < j < readings.len() implies #[trigger] all[i]
            < #[trigger] all[j] by {
            assert(all[i] == before[i]);
            if j < readings.len() - 1 {
                assert(all[j] == before[j]);
            } else if i < before.len() - 1 {
                assert(before[i] < before[before.len() - 1]);
            }
        }
    }
}

/// Time does not run backwards, until it no longer fits in 64 bits.
pub proof fn law_time_is_monotonic(boot: int, tsc: int, later: int, hz: int)
    requires
        boot <= tsc <= later,
        hz > 0,
        nanoseconds(later - boot, hz) <= u64::MAX,
    ensures
        time_at(tsc, boot, hz) <= time_at(later, boot, hz),
{
    let a = (tsc - boot) * 1_000_000_000;
    let b = (later - boot) * 1_000_000_000;
    lemma_div_is_ordered(a, b, hz);
    lemma_div_pos_is_pos(a, hz);
    lemma_small_mod((a / hz) as nat, 0x1_0000_0000_0000_0000);
    lemma_small_mod((b / hz) as nat, 0x1_0000_0000_0000_0000);
}

/// Time advances from one reading to another that is at least a nanosecond
/// later, until it no longer fits in 64 bits. Where the counter is no faster
/// than one tick a nanosecond, that is every later reading.
pub proof fn law_time_is_strictly_monotonic(boot: int, tsc: int, later: int, hz: int)
    requires
        boot <= tsc < later,
        hz > 0,
        (later - tsc) * 1_000_000_000 >= hz,
        nanoseconds(later - boot, hz) <= u64::MAX,
    ensures
        time_at(tsc, boot, hz) < time_at(later, boot, hz),
{
    let a = (tsc - boot) * 1_000_000_000;
    let b = (later - boot) * 1_000_000_000;
    lemma_div_is_ordered(a + hz, b, hz);
    lemma_div_plus_one(a, hz);
    lemma_div_pos_is_pos(a, hz);
    lemma_small_mod((a / hz) as nat, 0x1_0000_0000_0000_0000);
    lemma_small_mod((b / hz) as nat, 0x1_0000_0000_0000_0000);
}

proof fn lemma_div_plus_one(a: int, d: int)
    requires
        d > 0,
    ensures
        (a + d) / d == a / d + 1,
{
    lemma_fundamental_div_mod(a, d);
    let q = a / d;
    let r = a % d;
    assert(a + d == (q + 1) * d + r) by (nonlinear_arith)
        requires
            a == d * q + r,
    ;
    lemma_mod_bound(a, d);
    lemma_fundamental_div_mod_converse(a + d, d, q + 1, r);
}

} // verus!
